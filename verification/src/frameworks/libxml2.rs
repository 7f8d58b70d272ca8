//! libxml2 for the guest: documents, a DOM walk and a text reader, served
//! from the host-side handle tables. Strings returned to the guest are
//! fresh NUL-terminated copies in guest memory.
use vstd::prelude::*;
use crate::environment::{with_libxml2, Environment};
use crate::external::utf8_lossy;
use crate::frameworks::xml_doc::{build_doc, element_count, handle_range, nodes_added, parsed_events};
use crate::frameworks::xml_parser::{
    attrs_view, copy_attrs, copy_bytes, events_view, find_byte, lemma_find_byte, parse_from,
    xml_parse_events, ReaderEvent, SpecEvent, XmlAttr,
};
use crate::frameworks::xml_state::{XmlNodeData, XmlReaderData, XmlState, HANDLE_BASE};
use crate::mem::{cstr_at, has_cstr_at};

verus! {

broadcast use vstd::std_specs::hash::group_hash_axioms;

// ---------------------------------------------------------------------
// Guest memory helpers
// ---------------------------------------------------------------------

/// The string at `ptr`, or the empty string for a null pointer.
pub open spec fn cstr_or_empty(mem: Seq<u8>, ptr: u32) -> Seq<u8> {
    if ptr == 0 {
        seq![]
    } else {
        cstr_at(mem, ptr as int)
    }
}

/// `ptr` is null or points at a NUL-terminated string.
pub open spec fn readable_cstr(mem: Seq<u8>, ptr: u32) -> bool {
    ptr == 0 || has_cstr_at(mem, ptr as int)
}

/// Memory can grow by a string of `n` bytes and its terminator.
pub open spec fn room_for(env: Environment, n: int) -> bool {
    env.mem@.len() + n + 1 <= u32::MAX
}

/// `new` is `old` after a string `s` was written to fresh guest memory.
pub open spec fn wrote_str(old: Environment, new: Environment, s: Seq<u8>) -> bool {
    &&& new.mem@ == old.mem@ + s + seq![0u8]
    &&& new.objc == old.objc
    &&& new.framework_state == old.framework_state
}

/// Copies `len` bytes out of guest memory.
pub fn read_guest_bytes(env: &Environment, ptr: u32, len: u32) -> (v: Vec<u8>)
    requires
        env.wf(),
        ptr + len <= env.mem@.len(),
    ensures
        v@ == env.mem@.subrange(ptr as int, ptr + len),
{
    env.mem.bytes_at(ptr, len)
}

/// Reads the NUL-terminated string at `ptr`; null reads as empty.
pub fn read_cstr(env: &Environment, ptr: u32) -> (v: Vec<u8>)
    requires
        env.wf(),
        readable_cstr(env.mem@, ptr),
    ensures
        v@ == cstr_or_empty(env.mem@, ptr),
{
    if ptr == 0 {
        return Vec::new();
    }
    env.mem.cstr_at(ptr)
}

/// Reads the string at `ptr` as text, replacing invalid UTF-8.
pub fn read_cstr_str(env: &Environment, ptr: u32) -> (s: String)
    requires
        env.wf(),
        readable_cstr(env.mem@, ptr),
    ensures
        s@ == crate::external::utf8_lossy_decoded(cstr_or_empty(env.mem@, ptr)),
{
    let bytes = read_cstr(env, ptr);
    utf8_lossy(&bytes)
}

/// Writes `s` and a terminator to fresh guest memory; returns its address.
pub fn write_xml_str(env: &mut Environment, s: &[u8]) -> (p: u32)
    requires
        old(env).wf(),
        room_for(*old(env), s@.len() as int),
    ensures
        final(env).wf(),
        p == old(env).mem@.len(),
        p != 0,
        wrote_str(*old(env), *final(env), s@),
{
    env.mem.alloc_and_write_cstr(s)
}

/// Writes an empty string to fresh guest memory.
pub fn write_empty_str(env: &mut Environment) -> (p: u32)
    requires
        old(env).wf(),
        room_for(*old(env), 0),
    ensures
        final(env).wf(),
        p == old(env).mem@.len(),
        wrote_str(*old(env), *final(env), seq![]),
{
    let empty: Vec<u8> = Vec::new();
    write_xml_str(env, empty.as_slice())
}

// ---------------------------------------------------------------------
// Parser contexts
// ---------------------------------------------------------------------

/// `new` is `old` with only the libxml2 tables changed.
pub open spec fn xml_changed(old: Environment, new: Environment) -> bool {
    &&& new.mem == old.mem
    &&& new.objc == old.objc
    &&& new.framework_state == with_libxml2(old.framework_state, new.framework_state.libxml2)
}

/// A parser context is just a handle.
#[allow(non_snake_case)]
pub fn xmlNewParserCtxt(env: &mut Environment) -> (h: u32)
    requires
        old(env).wf(),
        old(env).framework_state.libxml2.next_id < u32::MAX,
    ensures
        final(env).wf(),
        xml_changed(*old(env), *final(env)),
        h == old(env).framework_state.libxml2.next_id,
        final(env).framework_state.libxml2.next_id == h + 1,
        final(env).framework_state.libxml2.handles@ == old(
            env,
        ).framework_state.libxml2.handles@.insert(h),
        final(env).framework_state.libxml2.nodes@ == old(env).framework_state.libxml2.nodes@,
        final(env).framework_state.libxml2.docs@ == old(env).framework_state.libxml2.docs@,
        final(env).framework_state.libxml2.readers@ == old(env).framework_state.libxml2.readers@,
{
    env.framework_state.libxml2.alloc_handle()
}

/// `new` is `old` after the handle `h` was released.
pub open spec fn released_handle(old: XmlState, new: XmlState, h: u32) -> bool {
    &&& new.next_id == old.next_id
    &&& new.handles@ == old.handles@.remove(h)
    &&& new.nodes@ == old.nodes@.remove(h)
    &&& new.docs@ == old.docs@.remove(h)
    &&& new.readers@ == old.readers@.remove(h)
}

#[allow(non_snake_case)]
pub fn xmlFreeParserCtxt(env: &mut Environment, ctxt: u32)
    requires
        old(env).wf(),
    ensures
        final(env).wf(),
        xml_changed(*old(env), *final(env)),
        released_handle(
            old(env).framework_state.libxml2,
            final(env).framework_state.libxml2,
            ctxt,
        ),
{
    env.framework_state.libxml2.release(ctxt);
}

/// Does nothing: contexts hold no state.
#[allow(non_snake_case)]
pub fn xmlClearParserCtxt(env: &mut Environment)
    ensures
        *final(env) == *old(env),
{
}

/// There is never an error to report: always null.
#[allow(non_snake_case)]
pub fn xmlCtxtGetLastError(env: &mut Environment, ctxt: u32) -> (r: u32)
    ensures
        *final(env) == *old(env),
        r == 0,
{
    0
}

/// Does nothing: the tables live as long as the environment.
#[allow(non_snake_case)]
pub fn xmlCleanupParser(env: &mut Environment)
    ensures
        *final(env) == *old(env),
{
}

// ---------------------------------------------------------------------
// Documents
// ---------------------------------------------------------------------

/// Where building a document from `data` has the handles it needs.
pub open spec fn can_build(s: XmlState, data: Seq<u8>) -> bool {
    &&& data.len() <= i32::MAX
    &&& s.next_id + 1 + element_count(parsed_events(data)) <= u32::MAX
}

/// What building a document from `data` does to the tables, and the handle
/// returned (0 for none).
pub open spec fn built_doc(old: XmlState, new: XmlState, data: Seq<u8>, r: u32) -> bool {
    let evs = parsed_events(data);
    let d = old.next_id;
    let m = element_count(evs);
    &&& new.readers@ == old.readers@
    &&& evs.len() == 0 ==> {
        &&& r == 0
        &&& new.next_id == old.next_id
        &&& new.handles@ == old.handles@
        &&& new.nodes@ == old.nodes@
        &&& new.docs@ == old.docs@
    }
    &&& evs.len() > 0 ==> {
        &&& new.next_id == d + 1 + m
        &&& new.handles@ == old.handles@.union(handle_range(d as int, d + 1 + m))
        &&& nodes_added(old.nodes@, new.nodes@, evs, d)
        &&& m == 0 ==> r == 0 && new.docs@ == old.docs@
        &&& m > 0 ==> r == d && new.docs@ == old.docs@.insert(
            d,
            crate::frameworks::xml_state::XmlDocData { root: (d + 1) as u32 },
        )
    }
}

/// Builds a document from bytes already read; 0 where none is made.
pub fn doc_from_bytes(env: &mut Environment, data: &[u8]) -> (r: u32)
    requires
        old(env).wf(),
        can_build(old(env).framework_state.libxml2, data@),
    ensures
        final(env).wf(),
        xml_changed(*old(env), *final(env)),
        built_doc(old(env).framework_state.libxml2, final(env).framework_state.libxml2, data@, r),
{
    match build_doc(&mut env.framework_state.libxml2, data) {
        Some(h) => h,
        None => 0,
    }
}

#[allow(non_snake_case)]
pub fn xmlCtxtReadMemory(
    env: &mut Environment,
    ctxt: u32,
    buf: u32,
    sz: u32,
    url: u32,
    enc: u32,
    opt: u32,
) -> (r: u32)
    requires
        old(env).wf(),
        buf + sz <= old(env).mem@.len(),
        can_build(
            old(env).framework_state.libxml2,
            old(env).mem@.subrange(buf as int, buf + sz),
        ),
    ensures
        final(env).wf(),
        xml_changed(*old(env), *final(env)),
        built_doc(
            old(env).framework_state.libxml2,
            final(env).framework_state.libxml2,
            old(env).mem@.subrange(buf as int, buf + sz),
            r,
        ),
{
    let data = read_guest_bytes(env, buf, sz);
    doc_from_bytes(env, &data)
}

#[allow(non_snake_case)]
pub fn xmlReadMemory(env: &mut Environment, buffer: u32, size: u32, url: u32, encoding: u32, options: u32) -> (r: u32)
    requires
        old(env).wf(),
        buffer + size <= old(env).mem@.len(),
        can_build(
            old(env).framework_state.libxml2,
            old(env).mem@.subrange(buffer as int, buffer + size),
        ),
    ensures
        final(env).wf(),
        xml_changed(*old(env), *final(env)),
        built_doc(
            old(env).framework_state.libxml2,
            final(env).framework_state.libxml2,
            old(env).mem@.subrange(buffer as int, buffer + size),
            r,
        ),
{
    let data = read_guest_bytes(env, buffer, size);
    doc_from_bytes(env, &data)
}

#[allow(non_snake_case)]
pub fn xmlParseMemory(env: &mut Environment, buffer: u32, size: u32) -> (r: u32)
    requires
        old(env).wf(),
        buffer + size <= old(env).mem@.len(),
        can_build(
            old(env).framework_state.libxml2,
            old(env).mem@.subrange(buffer as int, buffer + size),
        ),
    ensures
        final(env).wf(),
        xml_changed(*old(env), *final(env)),
        built_doc(
            old(env).framework_state.libxml2,
            final(env).framework_state.libxml2,
            old(env).mem@.subrange(buffer as int, buffer + size),
            r,
        ),
{
    let data = read_guest_bytes(env, buffer, size);
    doc_from_bytes(env, &data)
}

/// The nodes of `nodes` that do not belong to the document `doc`.
pub open spec fn nodes_without_doc(nodes: Map<u32, XmlNodeData>, doc: u32) -> Map<u32, XmlNodeData> {
    nodes.restrict(Set::new(|h: u32| nodes.contains_key(h) && nodes[h].doc_handle != doc))
}

/// The handles of the nodes of the document `doc`.
pub open spec fn doc_node_handles(nodes: Map<u32, XmlNodeData>, doc: u32) -> Set<u32> {
    Set::new(|h: u32| nodes.contains_key(h) && nodes[h].doc_handle == doc)
}

/// Frees a document: its nodes and its handle are released.
#[allow(non_snake_case)]
pub fn xmlFreeDoc(env: &mut Environment, doc: u32)
    requires
        old(env).wf(),
    ensures
        final(env).wf(),
        xml_changed(*old(env), *final(env)),
        final(env).framework_state.libxml2.next_id == old(env).framework_state.libxml2.next_id,
        final(env).framework_state.libxml2.docs@ == old(env).framework_state.libxml2.docs@.remove(
            doc,
        ),
        final(env).framework_state.libxml2.nodes@ == nodes_without_doc(
            old(env).framework_state.libxml2.nodes@,
            doc,
        ),
        final(env).framework_state.libxml2.handles@ == old(
            env,
        ).framework_state.libxml2.handles@.difference(
            doc_node_handles(old(env).framework_state.libxml2.nodes@, doc),
        ).remove(doc),
        final(env).framework_state.libxml2.readers@ == old(env).framework_state.libxml2.readers@,
{
    let ghost old_s = env.framework_state.libxml2;
    let s = &mut env.framework_state.libxml2;
    s.docs.remove(&doc);
    let end = s.next_id;
    let mut h: u32 = if doc < HANDLE_BASE {
        HANDLE_BASE
    } else if doc < end {
        doc + 1
    } else {
        end
    };
    proof {
        assert forall|x: u32| #[trigger] old_s.nodes@.contains_key(x) && x < h implies old_s.nodes@[x].doc_handle != doc by {
        }
    }
    while h < end
        invariant
            s.wf(),
            h <= end,
            end == s.next_id,
            end == old_s.next_id,
            old_s.wf(),
            s.docs@ == old_s.docs@.remove(doc),
            s.readers@ == old_s.readers@,
            forall|x: u32| #[trigger]
                s.nodes@.contains_key(x) <==> (old_s.nodes@.contains_key(x) && (
                old_s.nodes@[x].doc_handle != doc || x >= h)),
            forall|x: u32| #[trigger] s.nodes@.contains_key(x) ==> s.nodes@[x] == old_s.nodes@[x],
            forall|x: u32| #[trigger]
                s.handles@.contains(x) <==> (old_s.handles@.contains(x) && !(old_s.nodes@.contains_key(
                    x,
                ) && old_s.nodes@[x].doc_handle == doc && x < h)),
        decreases end - h,
    {
        let belongs = match s.nodes.get(&h) {
            Some(n) => n.doc_handle == doc,
            None => false,
        };
        if belongs {
            s.nodes.remove(&h);
            s.handles.remove(&h);
        }
        h = h + 1;
    }
    s.handles.remove(&doc);
    proof {
        let s2 = env.framework_state.libxml2;
        assert forall|x: u32| #[trigger] s2.nodes@.contains_key(x) == nodes_without_doc(old_s.nodes@, doc).contains_key(x) by {
            if old_s.nodes@.contains_key(x) && old_s.nodes@[x].doc_handle == doc {
                assert(x < end);
            }
        }
        assert(s2.nodes@ =~= nodes_without_doc(old_s.nodes@, doc));
        assert forall|x: u32| #[trigger] s2.handles@.contains(x) == old_s.handles@.difference(
            doc_node_handles(old_s.nodes@, doc),
        ).remove(doc).contains(x) by {
            if old_s.nodes@.contains_key(x) && old_s.nodes@[x].doc_handle == doc {
                assert(x < end);
            }
        }
        assert(s2.handles@ =~= old_s.handles@.difference(doc_node_handles(old_s.nodes@, doc)).remove(
            doc,
        ));
    }
}

/// Releases a handle; a pointer that is not a handle is left alone (the
/// strings handed to the guest are never freed).
#[allow(non_snake_case)]
pub fn xmlFree(env: &mut Environment, ptr: u32)
    requires
        old(env).wf(),
    ensures
        final(env).wf(),
        xml_changed(*old(env), *final(env)),
        old(env).framework_state.libxml2.handles@.contains(ptr) ==> released_handle(
            old(env).framework_state.libxml2,
            final(env).framework_state.libxml2,
            ptr,
        ),
        !old(env).framework_state.libxml2.handles@.contains(ptr) ==> final(env).framework_state
            == old(env).framework_state,
{
    if env.framework_state.libxml2.is_handle(ptr) {
        env.framework_state.libxml2.release(ptr);
    }
}

// ---------------------------------------------------------------------
// DOM traversal
// ---------------------------------------------------------------------

#[allow(non_snake_case)]
pub fn xmlDocGetRootElement(env: &mut Environment, doc: u32) -> (r: u32)
    ensures
        *final(env) == *old(env),
        r == if old(env).framework_state.libxml2.docs@.contains_key(doc) {
            old(env).framework_state.libxml2.docs@[doc].root
        } else {
            0
        },
{
    match env.framework_state.libxml2.docs.get(&doc) {
        Some(d) => d.root,
        None => 0,
    }
}

/// A field of the node `h`, or 0 where there is no such node.
pub open spec fn node_link(s: XmlState, h: u32, f: spec_fn(XmlNodeData) -> u32) -> u32 {
    if s.nodes@.contains_key(h) {
        f(s.nodes@[h])
    } else {
        0
    }
}

#[allow(non_snake_case)]
pub fn xmlChildrenNode(env: &mut Environment, node: u32) -> (r: u32)
    ensures
        *final(env) == *old(env),
        r == node_link(old(env).framework_state.libxml2, node, |n: XmlNodeData| n.first_child),
{
    match env.framework_state.libxml2.nodes.get(&node) {
        Some(n) => n.first_child,
        None => 0,
    }
}

#[allow(non_snake_case)]
pub fn xmlGetLastChild(env: &mut Environment, node: u32) -> (r: u32)
    ensures
        *final(env) == *old(env),
        r == node_link(old(env).framework_state.libxml2, node, |n: XmlNodeData| n.last_child),
{
    match env.framework_state.libxml2.nodes.get(&node) {
        Some(n) => n.last_child,
        None => 0,
    }
}

/// Following next-sibling links from `cur`: the first node with a
/// non-empty name, or 0 where the chain ends first.
pub open spec fn element_walk(nodes: Map<u32, XmlNodeData>, cur: u32) -> u32
    decreases u32::MAX - cur,
{
    if cur == 0 || !nodes.contains_key(cur) {
        0
    } else if nodes[cur].name@.len() > 0 {
        cur
    } else if nodes[cur].next_sib > cur {
        element_walk(nodes, nodes[cur].next_sib)
    } else {
        0
    }
}

/// Walks sibling links from `start` to the first node with a name.
fn walk_to_element(s: &XmlState, start: u32) -> (r: u32)
    requires
        s.wf(),
    ensures
        r == element_walk(s.nodes@, start),
{
    let mut cur = start;
    while cur != 0
        invariant
            s.wf(),
            element_walk(s.nodes@, cur) == element_walk(s.nodes@, start),
        decreases (if cur == 0 {
            0int
        } else {
            u32::MAX - cur + 1
        }),
    {
        match s.nodes.get(&cur) {
            Some(n) => {
                if n.name.len() > 0 {
                    return cur;
                }
                cur = n.next_sib;
            },
            None => {
                return 0;
            },
        }
    }
    0
}

/// The next sibling of `node` that is an element (has a name).
#[allow(non_snake_case)]
pub fn xmlNextElementSibling(env: &mut Environment, node: u32) -> (r: u32)
    requires
        old(env).wf(),
    ensures
        *final(env) == *old(env),
        r == element_walk(
            old(env).framework_state.libxml2.nodes@,
            node_link(old(env).framework_state.libxml2, node, |n: XmlNodeData| n.next_sib),
        ),
{
    let start = match env.framework_state.libxml2.nodes.get(&node) {
        Some(n) => n.next_sib,
        None => 0,
    };
    walk_to_element(&env.framework_state.libxml2, start)
}

/// The first child of `node` that is an element (has a name).
#[allow(non_snake_case)]
pub fn xmlFirstElementChild(env: &mut Environment, node: u32) -> (r: u32)
    requires
        old(env).wf(),
    ensures
        *final(env) == *old(env),
        r == element_walk(
            old(env).framework_state.libxml2.nodes@,
            node_link(old(env).framework_state.libxml2, node, |n: XmlNodeData| n.first_child),
        ),
{
    let start = match env.framework_state.libxml2.nodes.get(&node) {
        Some(n) => n.first_child,
        None => 0,
    };
    walk_to_element(&env.framework_state.libxml2, start)
}

/// The text content of the node `h`, empty where there is no such node.
pub open spec fn node_content(s: XmlState, h: u32) -> Seq<u8> {
    if s.nodes@.contains_key(h) {
        s.nodes@[h].content@
    } else {
        seq![]
    }
}

fn node_content_exec(s: &XmlState, h: u32) -> (v: Vec<u8>)
    ensures
        v@ == node_content(*s, h),
{
    match s.nodes.get(&h) {
        Some(n) => crate::frameworks::xml_parser::copy_bytes(&n.content),
        None => Vec::new(),
    }
}

/// The text content of the node `list`, as a fresh string.
#[allow(non_snake_case)]
pub fn xmlNodeListGetString(env: &mut Environment, doc: u32, list: u32, inln: u32) -> (r: u32)
    requires
        old(env).wf(),
        room_for(*old(env), node_content(old(env).framework_state.libxml2, list).len() as int),
    ensures
        final(env).wf(),
        r == old(env).mem@.len(),
        wrote_str(*old(env), *final(env), node_content(old(env).framework_state.libxml2, list)),
{
    let content = node_content_exec(&env.framework_state.libxml2, list);
    write_xml_str(env, &content)
}

/// The text content of `node`, as a fresh string.
#[allow(non_snake_case)]
pub fn xmlNodeGetContent(env: &mut Environment, node: u32) -> (r: u32)
    requires
        old(env).wf(),
        room_for(*old(env), node_content(old(env).framework_state.libxml2, node).len() as int),
    ensures
        final(env).wf(),
        r == old(env).mem@.len(),
        wrote_str(*old(env), *final(env), node_content(old(env).framework_state.libxml2, node)),
{
    let content = node_content_exec(&env.framework_state.libxml2, node);
    write_xml_str(env, &content)
}

/// The value of the first attribute named `name` in `attrs`.
pub open spec fn find_attr(attrs: Seq<(Seq<u8>, Seq<u8>)>, name: Seq<u8>) -> Option<Seq<u8>>
    decreases attrs.len(),
{
    if attrs.len() == 0 {
        None
    } else if attrs[0].0 == name {
        Some(attrs[0].1)
    } else {
        find_attr(attrs.drop_first(), name)
    }
}

proof fn lemma_find_attr_step(attrs: Seq<(Seq<u8>, Seq<u8>)>, name: Seq<u8>, i: int)
    requires
        0 <= i < attrs.len(),
        attrs[i].0 != name,
    ensures
        find_attr(attrs.subrange(i, attrs.len() as int), name) == find_attr(
            attrs.subrange(i + 1, attrs.len() as int),
            name,
        ),
{
    assert(attrs.subrange(i, attrs.len() as int).drop_first() =~= attrs.subrange(
        i + 1,
        attrs.len() as int,
    ));
}

/// Byte-string equality.
pub fn bytes_eq(a: &[u8], b: &[u8]) -> (r: bool)
    ensures
        r == (a@ == b@),
{
    if a.len() != b.len() {
        return false;
    }
    let mut i: usize = 0;
    while i < a.len()
        invariant
            a@.len() == b@.len(),
            i <= a@.len(),
            forall|j: int| 0 <= j < i ==> a@[j] == b@[j],
        decreases a@.len() - i,
    {
        if a[i] != b[i] {
            return false;
        }
        i = i + 1;
    }
    assert(a@ =~= b@);
    true
}

/// Looks up the first attribute named `name`.
pub fn find_attr_exec(attrs: &Vec<XmlAttr>, name: &[u8]) -> (r: Option<Vec<u8>>)
    ensures
        match find_attr(crate::frameworks::xml_parser::attrs_view(attrs@), name@) {
            Some(v) => r matches Some(x) && x@ == v,
            None => r is None,
        },
{
    let ghost av = crate::frameworks::xml_parser::attrs_view(attrs@);
    let mut i: usize = 0;
    assert(av.subrange(0, av.len() as int) =~= av);
    while i < attrs.len()
        invariant
            i <= attrs@.len(),
            av == crate::frameworks::xml_parser::attrs_view(attrs@),
            find_attr(av.subrange(i as int, av.len() as int), name@) == find_attr(av, name@),
        decreases attrs@.len() - i,
    {
        if bytes_eq(&attrs[i].name, name) {
            proof {
                assert(av.subrange(i as int, av.len() as int)[0] == av[i as int]);
            }
            return Some(crate::frameworks::xml_parser::copy_bytes(&attrs[i].value));
        }
        proof {
            lemma_find_attr_step(av, name@, i as int);
        }
        i = i + 1;
    }
    proof {
        assert(av.subrange(i as int, av.len() as int) =~= Seq::<(Seq<u8>, Seq<u8>)>::empty());
    }
    None
}

/// The value of the attribute `name` of the node `h`, if both exist.
pub open spec fn node_prop(s: XmlState, h: u32, name: Seq<u8>) -> Option<Seq<u8>> {
    if s.nodes@.contains_key(h) {
        find_attr(s.nodes@[h]@.attrs, name)
    } else {
        None
    }
}

/// The value of an attribute of `node`, as a fresh string; null where the
/// node or the attribute does not exist.
#[allow(non_snake_case)]
pub fn xmlGetProp(env: &mut Environment, node: u32, name: u32) -> (r: u32)
    requires
        old(env).wf(),
        readable_cstr(old(env).mem@, name),
        node_prop(old(env).framework_state.libxml2, node, cstr_or_empty(old(env).mem@, name)) matches Some(
            v,
        ) ==> room_for(*old(env), v.len() as int),
    ensures
        final(env).wf(),
        match node_prop(
            old(env).framework_state.libxml2,
            node,
            cstr_or_empty(old(env).mem@, name),
        ) {
            Some(v) => r == old(env).mem@.len() && wrote_str(*old(env), *final(env), v),
            None => r == 0 && *final(env) == *old(env),
        },
{
    let attr_name = read_cstr(env, name);
    let val = match env.framework_state.libxml2.nodes.get(&node) {
        Some(n) => find_attr_exec(&n.attrs, &attr_name),
        None => None,
    };
    match val {
        Some(v) => write_xml_str(env, &v),
        None => 0,
    }
}

/// 1 where `node` has an attribute `name`, else 0.
#[allow(non_snake_case)]
pub fn xmlHasProp(env: &mut Environment, node: u32, name: u32) -> (r: u32)
    requires
        old(env).wf(),
        readable_cstr(old(env).mem@, name),
    ensures
        *final(env) == *old(env),
        r == if node_prop(
            old(env).framework_state.libxml2,
            node,
            cstr_or_empty(old(env).mem@, name),
        ) is Some {
            1u32
        } else {
            0u32
        },
{
    let attr_name = read_cstr(env, name);
    let found = match env.framework_state.libxml2.nodes.get(&node) {
        Some(n) => find_attr_exec(&n.attrs, &attr_name).is_some(),
        None => false,
    };
    if found {
        1
    } else {
        0
    }
}

// ---------------------------------------------------------------------
// String utilities
// ---------------------------------------------------------------------

/// Byte-wise lexicographic comparison: -1, 0 or 1.
pub open spec fn lex_order(a: Seq<u8>, b: Seq<u8>) -> i32
    decreases a.len(),
{
    if a.len() == 0 {
        if b.len() == 0 {
            0i32
        } else {
            -1i32
        }
    } else if b.len() == 0 {
        1i32
    } else if a[0] < b[0] {
        -1i32
    } else if a[0] > b[0] {
        1i32
    } else {
        lex_order(a.drop_first(), b.drop_first())
    }
}

pub fn lex_compare_exec(a: &[u8], b: &[u8]) -> (r: i32)
    ensures
        r == lex_order(a@, b@),
{
    let mut i: usize = 0;
    proof {
        assert(a@.subrange(0, a@.len() as int) =~= a@);
        assert(b@.subrange(0, b@.len() as int) =~= b@);
    }
    while i < a.len() && i < b.len()
        invariant
            i <= a@.len(),
            i <= b@.len(),
            lex_order(a@.subrange(i as int, a@.len() as int), b@.subrange(i as int, b@.len() as int))
                == lex_order(a@, b@),
        decreases a@.len() - i,
    {
        let ghost sa = a@.subrange(i as int, a@.len() as int);
        let ghost sb = b@.subrange(i as int, b@.len() as int);
        if a[i] < b[i] {
            return -1;
        }
        if a[i] > b[i] {
            return 1;
        }
        proof {
            assert(sa.drop_first() =~= a@.subrange(i + 1, a@.len() as int));
            assert(sb.drop_first() =~= b@.subrange(i + 1, b@.len() as int));
        }
        i = i + 1;
    }
    if i < a.len() {
        1
    } else if i < b.len() {
        -1
    } else {
        0
    }
}

/// Compares two strings byte by byte (null reads as empty).
#[allow(non_snake_case)]
pub fn xmlStrcmp(env: &mut Environment, s1: u32, s2: u32) -> (r: i32)
    requires
        old(env).wf(),
        readable_cstr(old(env).mem@, s1),
        readable_cstr(old(env).mem@, s2),
    ensures
        *final(env) == *old(env),
        r == lex_order(cstr_or_empty(old(env).mem@, s1), cstr_or_empty(old(env).mem@, s2)),
{
    let a = read_cstr(env, s1);
    let b = read_cstr(env, s2);
    lex_compare_exec(&a, &b)
}

/// A fresh copy of the string at `src`; null for null.
#[allow(non_snake_case)]
pub fn xmlStrdup(env: &mut Environment, src: u32) -> (r: u32)
    requires
        old(env).wf(),
        readable_cstr(old(env).mem@, src),
        src != 0 ==> room_for(*old(env), cstr_or_empty(old(env).mem@, src).len() as int),
    ensures
        final(env).wf(),
        src == 0 ==> r == 0 && *final(env) == *old(env),
        src != 0 ==> r == old(env).mem@.len() && wrote_str(
            *old(env),
            *final(env),
            cstr_or_empty(old(env).mem@, src),
        ),
{
    if src == 0 {
        return 0;
    }
    let bytes = read_cstr(env, src);
    write_xml_str(env, &bytes)
}

/// The length of the string at `str_ptr` (0 for null), cut to 32 bits.
#[allow(non_snake_case)]
pub fn xmlStrlen(env: &mut Environment, str_ptr: u32) -> (r: i32)
    requires
        old(env).wf(),
        readable_cstr(old(env).mem@, str_ptr),
    ensures
        *final(env) == *old(env),
        r == cstr_or_empty(old(env).mem@, str_ptr).len() as i32,
{
    if str_ptr == 0 {
        return 0;
    }
    let bytes = read_cstr(env, str_ptr);
    bytes.len() as i32
}

/// The part of `bytes` that `xmlStrsub` takes: `len` bytes from `start`,
/// cut at the end; empty where `start` is past the end.
pub open spec fn sub_bytes(bytes: Seq<u8>, start: u32, len: u32) -> Seq<u8> {
    if start < bytes.len() {
        let e = if start + len < bytes.len() {
            start + len
        } else {
            bytes.len() as int
        };
        bytes.subrange(start as int, e)
    } else {
        seq![]
    }
}

/// A fresh string holding part of the string at `str_ptr`; null for null.
#[allow(non_snake_case)]
pub fn xmlStrsub(env: &mut Environment, str_ptr: u32, start: u32, len: u32) -> (r: u32)
    requires
        old(env).wf(),
        readable_cstr(old(env).mem@, str_ptr),
        str_ptr != 0 ==> room_for(
            *old(env),
            sub_bytes(cstr_or_empty(old(env).mem@, str_ptr), start, len).len() as int,
        ),
    ensures
        final(env).wf(),
        str_ptr == 0 ==> r == 0 && *final(env) == *old(env),
        str_ptr != 0 ==> r == old(env).mem@.len() && wrote_str(
            *old(env),
            *final(env),
            sub_bytes(cstr_or_empty(old(env).mem@, str_ptr), start, len),
        ),
{
    if str_ptr == 0 {
        return 0;
    }
    let bytes = read_cstr(env, str_ptr);
    let s = start as usize;
    let slice: Vec<u8> = if s < bytes.len() {
        let e: usize = if (start as u64) + (len as u64) < bytes.len() as u64 {
            s + len as usize
        } else {
            bytes.len()
        };
        crate::frameworks::xml_parser::slice_copy(&bytes, s, e)
    } else {
        Vec::new()
    };
    write_xml_str(env, &slice)
}

// ---------------------------------------------------------------------
// Text reader
// ---------------------------------------------------------------------

pub const XML_READER_TYPE_ELEMENT: i32 = 1;
pub const XML_READER_TYPE_TEXT: i32 = 3;
pub const XML_READER_TYPE_END_ELEMENT: i32 = 15;

pub open spec fn ev_type(e: SpecEvent) -> i32 {
    match e {
        SpecEvent::Start { .. } => XML_READER_TYPE_ELEMENT,
        SpecEvent::End { .. } => XML_READER_TYPE_END_ELEMENT,
        SpecEvent::Text { .. } => XML_READER_TYPE_TEXT,
    }
}

pub open spec fn ev_depth(e: SpecEvent) -> int {
    match e {
        SpecEvent::Start { depth, .. } => depth,
        SpecEvent::End { depth, .. } => depth,
        SpecEvent::Text { depth, .. } => depth,
    }
}

/// `#text`
pub open spec fn text_node_name() -> Seq<u8> {
    seq![0x23u8, 0x74, 0x65, 0x78, 0x74]
}

pub open spec fn ev_name(e: SpecEvent) -> Seq<u8> {
    match e {
        SpecEvent::Start { name, .. } => name,
        SpecEvent::End { name, .. } => name,
        SpecEvent::Text { .. } => text_node_name(),
    }
}

pub open spec fn ev_value(e: SpecEvent) -> Seq<u8> {
    match e {
        SpecEvent::Text { value, .. } => value,
        _ => seq![],
    }
}

pub open spec fn ev_attrs(e: SpecEvent) -> Seq<(Seq<u8>, Seq<u8>)> {
    match e {
        SpecEvent::Start { attrs, .. } => attrs,
        _ => seq![],
    }
}

pub open spec fn ev_is_empty(e: SpecEvent) -> bool {
    e matches SpecEvent::Start { is_empty: true, .. }
}

/// The event a reader is on, if any.
pub open spec fn reader_event(rd: XmlReaderData) -> Option<SpecEvent> {
    if 0 <= rd.pos < rd.events@.len() {
        Some(rd.events@[rd.pos as int]@)
    } else {
        None
    }
}

/// The event the reader `r` is on, if `r` is a reader and is on one.
pub open spec fn current_event(s: XmlState, r: u32) -> Option<SpecEvent> {
    if s.readers@.contains_key(r) {
        reader_event(s.readers@[r])
    } else {
        None
    }
}

pub fn reader_current(rd: &XmlReaderData) -> (r: Option<&ReaderEvent>)
    ensures
        match reader_event(*rd) {
            Some(e) => r matches Some(x) && x@ == e,
            None => r is None,
        },
{
    if rd.pos < 0 || (rd.pos as u64) >= (rd.events.len() as u64) {
        None
    } else {
        Some(&rd.events[rd.pos as usize])
    }
}

pub fn event_node_type(ev: &ReaderEvent) -> (r: i32)
    ensures
        r == ev_type(ev@),
{
    match ev {
        ReaderEvent::Start { .. } => XML_READER_TYPE_ELEMENT,
        ReaderEvent::End { .. } => XML_READER_TYPE_END_ELEMENT,
        ReaderEvent::Text { .. } => XML_READER_TYPE_TEXT,
    }
}

pub fn event_depth(ev: &ReaderEvent) -> (r: i32)
    ensures
        r as int == ev_depth(ev@),
{
    match ev {
        ReaderEvent::Start { depth, .. } => *depth,
        ReaderEvent::End { depth, .. } => *depth,
        ReaderEvent::Text { depth, .. } => *depth,
    }
}

pub fn event_name(ev: &ReaderEvent) -> (r: Vec<u8>)
    ensures
        r@ == ev_name(ev@),
{
    match ev {
        ReaderEvent::Start { name, .. } => copy_bytes(name),
        ReaderEvent::End { name, .. } => copy_bytes(name),
        ReaderEvent::Text { .. } => {
            let v: Vec<u8> = vec![0x23u8, 0x74, 0x65, 0x78, 0x74];
            assert(v@ =~= text_node_name());
            v
        },
    }
}

pub fn event_value(ev: &ReaderEvent) -> (r: Vec<u8>)
    ensures
        r@ == ev_value(ev@),
{
    match ev {
        ReaderEvent::Text { value, .. } => copy_bytes(value),
        _ => Vec::new(),
    }
}

pub fn event_attrs(ev: &ReaderEvent) -> (r: Vec<XmlAttr>)
    ensures
        attrs_view(r@) == ev_attrs(ev@),
{
    match ev {
        ReaderEvent::Start { attrs, .. } => copy_attrs(attrs),
        _ => {
            let v: Vec<XmlAttr> = Vec::new();
            assert(attrs_view(v@) =~= Seq::<(Seq<u8>, Seq<u8>)>::empty());
            v
        },
    }
}

pub fn event_is_empty(ev: &ReaderEvent) -> (r: bool)
    ensures
        r == ev_is_empty(ev@),
{
    match ev {
        ReaderEvent::Start { is_empty, .. } => *is_empty,
        _ => false,
    }
}

/// Where a reader can be made from `data`.
pub open spec fn can_read(s: XmlState, data: Seq<u8>) -> bool {
    &&& data.len() <= i32::MAX
    &&& s.next_id < u32::MAX
}

/// Makes a text reader over bytes already read; 0 for no bytes.
pub fn reader_from_bytes(env: &mut Environment, data: &[u8]) -> (r: u32)
    requires
        old(env).wf(),
        can_read(old(env).framework_state.libxml2, data@),
    ensures
        final(env).wf(),
        xml_changed(*old(env), *final(env)),
        data@.len() == 0 ==> r == 0 && final(env).framework_state == old(env).framework_state,
        data@.len() > 0 ==> {
            let s0 = old(env).framework_state.libxml2;
            let s1 = final(env).framework_state.libxml2;
            &&& r == s0.next_id
            &&& s1.next_id == s0.next_id + 1
            &&& s1.handles@ == s0.handles@.insert(r)
            &&& s1.nodes@ == s0.nodes@
            &&& s1.docs@ == s0.docs@
            &&& s1.readers@.dom() == s0.readers@.dom().insert(r)
            &&& forall|h: u32| #[trigger] s0.readers@.contains_key(h) ==> s1.readers@[h] == s0.readers@[h]
            &&& events_view(s1.readers@[r].events@) == parsed_events(data@)
            &&& s1.readers@[r].pos == -1
        },
{
    if data.len() == 0 {
        return 0;
    }
    let events = xml_parse_events(data);
    let h = env.framework_state.libxml2.alloc_handle();
    env.framework_state.libxml2.readers.insert(h, XmlReaderData { events, pos: -1 });
    h
}

#[allow(non_snake_case)]
pub fn xmlFreeTextReader(env: &mut Environment, reader: u32)
    requires
        old(env).wf(),
    ensures
        final(env).wf(),
        xml_changed(*old(env), *final(env)),
        released_handle(
            old(env).framework_state.libxml2,
            final(env).framework_state.libxml2,
            reader,
        ),
{
    env.framework_state.libxml2.release(reader);
}

/// `new` is `old` with the position of reader `r` set to `pos`.
pub open spec fn moved_reader(old: XmlState, new: XmlState, r: u32, pos: i64) -> bool {
    &&& new.next_id == old.next_id
    &&& new.handles@ == old.handles@
    &&& new.nodes@ == old.nodes@
    &&& new.docs@ == old.docs@
    &&& new.readers@ == old.readers@.insert(
        r,
        XmlReaderData { events: old.readers@[r].events, pos },
    )
}

/// The tables of `new` hold what those of `old` hold.
pub open spec fn tables_unchanged(old: XmlState, new: XmlState) -> bool {
    &&& new.next_id == old.next_id
    &&& new.handles@ == old.handles@
    &&& new.nodes@ == old.nodes@
    &&& new.docs@ == old.docs@
    &&& new.readers@ == old.readers@
}

/// 1 where the event after the reader's position exists, else 0.
pub open spec fn read_result(rd: XmlReaderData) -> i32 {
    if rd.pos + 1 < rd.events@.len() {
        1
    } else {
        0
    }
}

/// Moves to the next event: 1 where there is one, 0 at the end, -1 for an
/// unknown reader.
#[allow(non_snake_case)]
pub fn xmlTextReaderRead(env: &mut Environment, reader: u32) -> (r: i32)
    requires
        old(env).wf(),
        old(env).framework_state.libxml2.readers@.contains_key(reader) ==> old(
            env,
        ).framework_state.libxml2.readers@[reader].pos < i64::MAX,
    ensures
        final(env).wf(),
        xml_changed(*old(env), *final(env)),
        old(env).framework_state.libxml2.readers@.contains_key(reader) ==> moved_reader(
            old(env).framework_state.libxml2,
            final(env).framework_state.libxml2,
            reader,
            (old(env).framework_state.libxml2.readers@[reader].pos + 1) as i64,
        ),
        old(env).framework_state.libxml2.readers@.contains_key(reader) ==> r == read_result(
            old(env).framework_state.libxml2.readers@[reader],
        ),
        !old(env).framework_state.libxml2.readers@.contains_key(reader) ==> r == -1,
        !old(env).framework_state.libxml2.readers@.contains_key(reader) ==> tables_unchanged(
            old(env).framework_state.libxml2,
            final(env).framework_state.libxml2,
        ),
{
    let s = &mut env.framework_state.libxml2;
    match s.readers.remove(&reader) {
        Some(rd) => {
            assert(rd.pos >= -1);
            let pos = rd.pos + 1;
            let r: i32 = if (pos as u64) < (rd.events.len() as u64) {
                1
            } else {
                0
            };
            let ghost ev = rd.events;
            s.readers.insert(reader, XmlReaderData { events: rd.events, pos });
            assert(s.readers@ =~= old(env).framework_state.libxml2.readers@.insert(
                reader,
                XmlReaderData { events: ev, pos },
            ));
            r
        },
        None => {
            assert(s.readers@ =~= old(env).framework_state.libxml2.readers@);
            -1
        },
    }
}

#[allow(non_snake_case)]
pub fn xmlTextReaderNodeType(env: &mut Environment, reader: u32) -> (r: i32)
    ensures
        *final(env) == *old(env),
        r == match current_event(old(env).framework_state.libxml2, reader) {
            Some(e) => ev_type(e),
            None => 0,
        },
{
    match env.framework_state.libxml2.readers.get(&reader) {
        Some(rd) => match reader_current(rd) {
            Some(ev) => event_node_type(ev),
            None => 0,
        },
        None => 0,
    }
}

pub open spec fn current_name(s: XmlState, reader: u32) -> Seq<u8> {
    match current_event(s, reader) {
        Some(e) => ev_name(e),
        None => seq![],
    }
}

pub open spec fn current_value(s: XmlState, reader: u32) -> Seq<u8> {
    match current_event(s, reader) {
        Some(e) => ev_value(e),
        None => seq![],
    }
}

fn current_name_exec(s: &XmlState, reader: u32) -> (v: Vec<u8>)
    ensures
        v@ == current_name(*s, reader),
{
    match s.readers.get(&reader) {
        Some(rd) => match reader_current(rd) {
            Some(ev) => event_name(ev),
            None => Vec::new(),
        },
        None => Vec::new(),
    }
}

fn current_value_exec(s: &XmlState, reader: u32) -> (v: Vec<u8>)
    ensures
        v@ == current_value(*s, reader),
{
    match s.readers.get(&reader) {
        Some(rd) => match reader_current(rd) {
            Some(ev) => event_value(ev),
            None => Vec::new(),
        },
        None => Vec::new(),
    }
}

/// The name of the current node (`#text` for text), as a fresh string.
#[allow(non_snake_case)]
pub fn xmlTextReaderConstName(env: &mut Environment, reader: u32) -> (r: u32)
    requires
        old(env).wf(),
        room_for(*old(env), current_name(old(env).framework_state.libxml2, reader).len() as int),
    ensures
        final(env).wf(),
        r == old(env).mem@.len(),
        wrote_str(*old(env), *final(env), current_name(old(env).framework_state.libxml2, reader)),
{
    let name = current_name_exec(&env.framework_state.libxml2, reader);
    write_xml_str(env, &name)
}

#[allow(non_snake_case)]
pub fn xmlTextReaderName(env: &mut Environment, reader: u32) -> (r: u32)
    requires
        old(env).wf(),
        room_for(*old(env), current_name(old(env).framework_state.libxml2, reader).len() as int),
    ensures
        final(env).wf(),
        r == old(env).mem@.len(),
        wrote_str(*old(env), *final(env), current_name(old(env).framework_state.libxml2, reader)),
{
    xmlTextReaderConstName(env, reader)
}

/// The text of the current node (empty but for text), as a fresh string.
#[allow(non_snake_case)]
pub fn xmlTextReaderConstValue(env: &mut Environment, reader: u32) -> (r: u32)
    requires
        old(env).wf(),
        room_for(*old(env), current_value(old(env).framework_state.libxml2, reader).len() as int),
    ensures
        final(env).wf(),
        r == old(env).mem@.len(),
        wrote_str(*old(env), *final(env), current_value(old(env).framework_state.libxml2, reader)),
{
    let val = current_value_exec(&env.framework_state.libxml2, reader);
    write_xml_str(env, &val)
}

#[allow(non_snake_case)]
pub fn xmlTextReaderValue(env: &mut Environment, reader: u32) -> (r: u32)
    requires
        old(env).wf(),
        room_for(*old(env), current_value(old(env).framework_state.libxml2, reader).len() as int),
    ensures
        final(env).wf(),
        r == old(env).mem@.len(),
        wrote_str(*old(env), *final(env), current_value(old(env).framework_state.libxml2, reader)),
{
    xmlTextReaderConstValue(env, reader)
}

/// Not supported: always an empty string.
#[allow(non_snake_case)]
pub fn xmlTextReaderReadInnerXml(env: &mut Environment, reader: u32) -> (r: u32)
    requires
        old(env).wf(),
        room_for(*old(env), 0),
    ensures
        final(env).wf(),
        r == old(env).mem@.len(),
        wrote_str(*old(env), *final(env), seq![]),
{
    write_empty_str(env)
}

/// Not supported: always an empty string.
#[allow(non_snake_case)]
pub fn xmlTextReaderReadOuterXml(env: &mut Environment, reader: u32) -> (r: u32)
    requires
        old(env).wf(),
        room_for(*old(env), 0),
    ensures
        final(env).wf(),
        r == old(env).mem@.len(),
        wrote_str(*old(env), *final(env), seq![]),
{
    write_empty_str(env)
}

/// Namespaces are not tracked: always an empty string.
#[allow(non_snake_case)]
pub fn xmlTextReaderNamespaceUri(env: &mut Environment, reader: u32) -> (r: u32)
    requires
        old(env).wf(),
        room_for(*old(env), 0),
    ensures
        final(env).wf(),
        r == old(env).mem@.len(),
        wrote_str(*old(env), *final(env), seq![]),
{
    write_empty_str(env)
}

/// The attributes of the current node (none but for a start tag).
pub open spec fn current_attrs(s: XmlState, reader: u32) -> Seq<(Seq<u8>, Seq<u8>)> {
    match current_event(s, reader) {
        Some(e) => ev_attrs(e),
        None => seq![],
    }
}

fn current_attrs_exec(s: &XmlState, reader: u32) -> (v: Vec<XmlAttr>)
    ensures
        attrs_view(v@) == current_attrs(*s, reader),
{
    match s.readers.get(&reader) {
        Some(rd) => match reader_current(rd) {
            Some(ev) => event_attrs(ev),
            None => {
                let v: Vec<XmlAttr> = Vec::new();
                assert(attrs_view(v@) =~= Seq::<(Seq<u8>, Seq<u8>)>::empty());
                v
            },
        },
        None => {
            let v: Vec<XmlAttr> = Vec::new();
            assert(attrs_view(v@) =~= Seq::<(Seq<u8>, Seq<u8>)>::empty());
            v
        },
    }
}

/// The value of an attribute of the current node, as a fresh string; null
/// where there is none.
#[allow(non_snake_case)]
pub fn xmlTextReaderGetAttribute(env: &mut Environment, reader: u32, name: u32) -> (r: u32)
    requires
        old(env).wf(),
        readable_cstr(old(env).mem@, name),
        find_attr(
            current_attrs(old(env).framework_state.libxml2, reader),
            cstr_or_empty(old(env).mem@, name),
        ) matches Some(v) ==> room_for(*old(env), v.len() as int),
    ensures
        final(env).wf(),
        match find_attr(
            current_attrs(old(env).framework_state.libxml2, reader),
            cstr_or_empty(old(env).mem@, name),
        ) {
            Some(v) => r == old(env).mem@.len() && wrote_str(*old(env), *final(env), v),
            None => r == 0 && *final(env) == *old(env),
        },
{
    let attr_name = read_cstr(env, name);
    let attrs = current_attrs_exec(&env.framework_state.libxml2, reader);
    match find_attr_exec(&attrs, &attr_name) {
        Some(v) => write_xml_str(env, &v),
        None => 0,
    }
}

/// The number of attributes of the current node, cut to 32 bits.
#[allow(non_snake_case)]
pub fn xmlTextReaderAttributeCount(env: &mut Environment, reader: u32) -> (r: i32)
    ensures
        *final(env) == *old(env),
        r == current_attrs(old(env).framework_state.libxml2, reader).len() as i32,
{
    let attrs = current_attrs_exec(&env.framework_state.libxml2, reader);
    attrs.len() as i32
}

/// 1 where the current node has attributes, else 0.
#[allow(non_snake_case)]
pub fn xmlTextReaderHasAttributes(env: &mut Environment, reader: u32) -> (r: i32)
    ensures
        *final(env) == *old(env),
        r == if current_attrs(old(env).framework_state.libxml2, reader).len() > 0 {
            1i32
        } else {
            0i32
        },
{
    let attrs = current_attrs_exec(&env.framework_state.libxml2, reader);
    if attrs.len() > 0 {
        1
    } else {
        0
    }
}

/// The depth of the current node, 0 where there is none.
pub open spec fn current_depth(s: XmlState, reader: u32) -> int {
    match current_event(s, reader) {
        Some(e) => ev_depth(e),
        None => 0,
    }
}

#[allow(non_snake_case)]
pub fn xmlTextReaderDepth(env: &mut Environment, reader: u32) -> (r: i32)
    ensures
        *final(env) == *old(env),
        r as int == current_depth(old(env).framework_state.libxml2, reader),
{
    match env.framework_state.libxml2.readers.get(&reader) {
        Some(rd) => match reader_current(rd) {
            Some(ev) => event_depth(ev),
            None => 0,
        },
        None => 0,
    }
}

/// 1 where the current node is a self-closing start tag, else 0.
#[allow(non_snake_case)]
pub fn xmlTextReaderIsEmptyElement(env: &mut Environment, reader: u32) -> (r: i32)
    ensures
        *final(env) == *old(env),
        r == match current_event(old(env).framework_state.libxml2, reader) {
            Some(e) => if ev_is_empty(e) {
                1i32
            } else {
                0i32
            },
            None => 0i32,
        },
{
    match env.framework_state.libxml2.readers.get(&reader) {
        Some(rd) => match reader_current(rd) {
            Some(ev) => if event_is_empty(ev) {
                1
            } else {
                0
            },
            None => 0,
        },
        None => 0,
    }
}

/// Where `xmlTextReaderNext` stops looking from `j`: the first start tag at
/// depth `d` or shallower, or the end.
pub open spec fn next_stop(evs: Seq<SpecEvent>, j: int, d: int) -> int
    decreases evs.len() - j,
{
    if j >= evs.len() {
        j
    } else if evs[j] is Start && ev_depth(evs[j]) <= d {
        j
    } else {
        next_stop(evs, j + 1, d)
    }
}

/// Where `xmlTextReaderNextSibling` stops looking from `j`: the first
/// event shallower than `d`, the first start tag at depth `d`, or the end.
pub open spec fn sibling_stop(evs: Seq<SpecEvent>, j: int, d: int) -> int
    decreases evs.len() - j,
{
    if j >= evs.len() {
        j
    } else if ev_depth(evs[j]) < d {
        j
    } else if ev_depth(evs[j]) == d && evs[j] is Start {
        j
    } else {
        sibling_stop(evs, j + 1, d)
    }
}

proof fn lemma_next_stop_bound(evs: Seq<SpecEvent>, j: int, d: int)
    ensures
        next_stop(evs, j, d) >= j,
        next_stop(evs, j, d) == j || next_stop(evs, j, d) <= evs.len(),
    decreases evs.len() - j,
{
    if j < evs.len() && !(evs[j] is Start && ev_depth(evs[j]) <= d) {
        lemma_next_stop_bound(evs, j + 1, d);
    }
}

proof fn lemma_sibling_stop_bound(evs: Seq<SpecEvent>, j: int, d: int)
    ensures
        sibling_stop(evs, j, d) >= j,
        sibling_stop(evs, j, d) == j || sibling_stop(evs, j, d) <= evs.len(),
    decreases evs.len() - j,
{
    if j < evs.len() && !(ev_depth(evs[j]) < d) && !(ev_depth(evs[j]) == d && evs[j] is Start) {
        lemma_sibling_stop_bound(evs, j + 1, d);
    }
}

/// Scans forward from just after `pos` as `xmlTextReaderNext` does.
fn scan_next(events: &Vec<ReaderEvent>, pos: i64, d: i32) -> (np: i64)
    requires
        pos >= -1,
        pos < i64::MAX,
        events@.len() <= i64::MAX,
    ensures
        np as int == next_stop(events_view(events@), pos + 1, d as int),
{
    let ghost evs = events_view(events@);
    let mut p = pos + 1;
    proof {
        lemma_next_stop_bound(evs, pos + 1, d as int);
    }
    while (p as u64) < (events.len() as u64)
        invariant
            0 <= p,
            p as int <= next_stop(evs, pos + 1, d as int),
            next_stop(evs, p as int, d as int) == next_stop(evs, pos + 1, d as int),
            evs == events_view(events@),
            evs.len() == events@.len(),
            events@.len() <= i64::MAX,
        decreases events@.len() - p,
    {
        let ev = &events[p as usize];
        assert(evs[p as int] == ev@);
        let is_start = match ev {
            ReaderEvent::Start { .. } => true,
            _ => false,
        };
        if is_start && event_depth(ev) <= d {
            return p;
        }
        proof {
            lemma_next_stop_bound(evs, p + 1, d as int);
        }
        p = p + 1;
    }
    p
}

/// Scans forward from just after `pos` as `xmlTextReaderNextSibling` does.
fn scan_sibling(events: &Vec<ReaderEvent>, pos: i64, d: i32) -> (np: i64)
    requires
        pos >= -1,
        pos < i64::MAX,
        events@.len() <= i64::MAX,
    ensures
        np as int == sibling_stop(events_view(events@), pos + 1, d as int),
{
    let ghost evs = events_view(events@);
    let mut p = pos + 1;
    proof {
        lemma_sibling_stop_bound(evs, pos + 1, d as int);
    }
    while (p as u64) < (events.len() as u64)
        invariant
            0 <= p,
            p as int <= sibling_stop(evs, pos + 1, d as int),
            sibling_stop(evs, p as int, d as int) == sibling_stop(evs, pos + 1, d as int),
            evs == events_view(events@),
            evs.len() == events@.len(),
            events@.len() <= i64::MAX,
        decreases events@.len() - p,
    {
        let ev = &events[p as usize];
        assert(evs[p as int] == ev@);
        let dd = event_depth(ev);
        if dd < d {
            return p;
        }
        let is_start = match ev {
            ReaderEvent::Start { .. } => true,
            _ => false,
        };
        if dd == d && is_start {
            return p;
        }
        proof {
            lemma_sibling_stop_bound(evs, p + 1, d as int);
        }
        p = p + 1;
    }
    p
}

/// Skips the current node and its descendants, to the next start tag at
/// the same or an outer depth: 1 where found, 0 at the end, -1 for an
/// unknown reader.
#[allow(non_snake_case)]
pub fn xmlTextReaderNext(env: &mut Environment, reader: u32) -> (r: i32)
    requires
        old(env).wf(),
        old(env).framework_state.libxml2.readers@.contains_key(reader) ==> old(env).framework_state.libxml2.readers@[reader].pos < i64::MAX,
        old(env).framework_state.libxml2.readers@.contains_key(reader) ==> old(env).framework_state.libxml2.readers@[reader].events@.len() <= i64::MAX,
    ensures
        final(env).wf(),
        xml_changed(*old(env), *final(env)),
        old(env).framework_state.libxml2.readers@.contains_key(reader) ==> {
            let s0 = old(env).framework_state.libxml2;
            let rd = s0.readers@[reader];
            let evs = events_view(rd.events@);
            let np = next_stop(evs, rd.pos + 1, current_depth(s0, reader));
            &&& moved_reader(s0, final(env).framework_state.libxml2, reader, np as i64)
            &&& r == if np < evs.len() {
                1i32
            } else {
                0i32
            }
        },
        !old(env).framework_state.libxml2.readers@.contains_key(reader) ==> r == -1
            && tables_unchanged(old(env).framework_state.libxml2, final(env).framework_state.libxml2),
{
    let s = &mut env.framework_state.libxml2;
    let rd = match s.readers.remove(&reader) {
        Some(rd) => rd,
        None => {
            assert(s.readers@ =~= old(env).framework_state.libxml2.readers@);
            return -1;
        },
    };
    assert(rd.pos >= -1);
    let cur_depth: i32 = match reader_current(&rd) {
        Some(ev) => event_depth(ev),
        None => 0,
    };
    let np = scan_next(&rd.events, rd.pos, cur_depth);
    let r: i32 = if (np as u64) < (rd.events.len() as u64) {
        1
    } else {
        0
    };
    proof {
        lemma_next_stop_bound(events_view(rd.events@), rd.pos + 1, cur_depth as int);
    }
    let ghost ev = rd.events;
    s.readers.insert(reader, XmlReaderData { events: rd.events, pos: np });
    assert(s.readers@ =~= old(env).framework_state.libxml2.readers@.insert(
        reader,
        XmlReaderData { events: ev, pos: np },
    ));
    r
}

/// Moves to the next start tag at the same depth: 1 where found, 0 where
/// the end or a shallower node comes first, -1 for an unknown reader.
#[allow(non_snake_case)]
pub fn xmlTextReaderNextSibling(env: &mut Environment, reader: u32) -> (r: i32)
    requires
        old(env).wf(),
        old(env).framework_state.libxml2.readers@.contains_key(reader) ==> old(env).framework_state.libxml2.readers@[reader].pos < i64::MAX,
        old(env).framework_state.libxml2.readers@.contains_key(reader) ==> old(env).framework_state.libxml2.readers@[reader].events@.len() <= i64::MAX,
    ensures
        final(env).wf(),
        xml_changed(*old(env), *final(env)),
        old(env).framework_state.libxml2.readers@.contains_key(reader) ==> {
            let s0 = old(env).framework_state.libxml2;
            let rd = s0.readers@[reader];
            let evs = events_view(rd.events@);
            let d = current_depth(s0, reader);
            let np = sibling_stop(evs, rd.pos + 1, d);
            &&& moved_reader(s0, final(env).framework_state.libxml2, reader, np as i64)
            &&& r == if np >= evs.len() || ev_depth(evs[np]) < d {
                0i32
            } else {
                1i32
            }
        },
        !old(env).framework_state.libxml2.readers@.contains_key(reader) ==> r == -1
            && tables_unchanged(old(env).framework_state.libxml2, final(env).framework_state.libxml2),
{
    let s = &mut env.framework_state.libxml2;
    let rd = match s.readers.remove(&reader) {
        Some(rd) => rd,
        None => {
            assert(s.readers@ =~= old(env).framework_state.libxml2.readers@);
            return -1;
        },
    };
    assert(rd.pos >= -1);
    let cur_depth: i32 = match reader_current(&rd) {
        Some(ev) => event_depth(ev),
        None => 0,
    };
    let np = scan_sibling(&rd.events, rd.pos, cur_depth);
    proof {
        lemma_sibling_stop_bound(events_view(rd.events@), rd.pos + 1, cur_depth as int);
    }
    let r: i32 = if (np as u64) >= (rd.events.len() as u64) {
        0
    } else if event_depth(&rd.events[np as usize]) < cur_depth {
        0
    } else {
        1
    };
    let ghost ev = rd.events;
    s.readers.insert(reader, XmlReaderData { events: rd.events, pos: np });
    assert(s.readers@ =~= old(env).framework_state.libxml2.readers@.insert(
        reader,
        XmlReaderData { events: ev, pos: np },
    ));
    r
}

/// Position of the first `b` in `s`.
pub fn find_byte_exec(s: &[u8], b: u8) -> (r: Option<usize>)
    ensures
        match find_byte(s@, 0, b) {
            Some(k) => r == Some(k as usize),
            None => r is None,
        },
{
    let mut i: usize = 0;
    while i < s.len()
        invariant
            i <= s@.len(),
            find_byte(s@, i as int, b) == find_byte(s@, 0, b),
        decreases s@.len() - i,
    {
        if s[i] == b {
            return Some(i);
        }
        i = i + 1;
    }
    None
}

/// The part of a name after its `prefix:` (the whole name without one).
pub open spec fn local_part(n: Seq<u8>) -> Seq<u8> {
    match find_byte(n, 0, 0x3A) {
        Some(p) => n.subrange(p + 1, n.len() as int),
        None => n,
    }
}

/// The prefix of a name (empty without one).
pub open spec fn prefix_part(n: Seq<u8>) -> Seq<u8> {
    match find_byte(n, 0, 0x3A) {
        Some(p) => n.subrange(0, p),
        None => seq![],
    }
}

/// The local name of the current node, as a fresh string.
#[allow(non_snake_case)]
pub fn xmlTextReaderLocalName(env: &mut Environment, reader: u32) -> (r: u32)
    requires
        old(env).wf(),
        room_for(*old(env), local_part(current_name(old(env).framework_state.libxml2, reader)).len() as int),
    ensures
        final(env).wf(),
        r == old(env).mem@.len(),
        wrote_str(*old(env), *final(env), local_part(current_name(old(env).framework_state.libxml2, reader))),
{
    let n = current_name_exec(&env.framework_state.libxml2, reader);
    proof {
        lemma_find_byte(n@, 0, 0x3Au8);
    }
    let local = match find_byte_exec(&n, 0x3A) {
        Some(p) => {
            assert(p < n.len());
            crate::frameworks::xml_parser::slice_copy(&n, p + 1, n.len())
        },
        None => n,
    };
    write_xml_str(env, &local)
}

/// The namespace prefix of the current node, as a fresh string.
#[allow(non_snake_case)]
pub fn xmlTextReaderPrefix(env: &mut Environment, reader: u32) -> (r: u32)
    requires
        old(env).wf(),
        room_for(*old(env), prefix_part(current_name(old(env).framework_state.libxml2, reader)).len() as int),
    ensures
        final(env).wf(),
        r == old(env).mem@.len(),
        wrote_str(*old(env), *final(env), prefix_part(current_name(old(env).framework_state.libxml2, reader))),
{
    let n = current_name_exec(&env.framework_state.libxml2, reader);
    proof {
        lemma_find_byte(n@, 0, 0x3Au8);
    }
    let prefix = match find_byte_exec(&n, 0x3A) {
        Some(p) => {
            assert(p < n.len());
            crate::frameworks::xml_parser::slice_copy(&n, 0, p)
        },
        None => Vec::new(),
    };
    write_xml_str(env, &prefix)
}

} // verus!
