//! The host-side tables behind the libxml2 handles: documents, element
//! nodes and text readers, each known by an opaque 32-bit handle.
//!
//! Handles are handed out in increasing order from `HANDLE_BASE`, so that
//! they never collide with guest pointers, and are never reused.
use vstd::prelude::*;
use std::collections::{HashMap, HashSet};
use crate::frameworks::xml_parser::{attrs_view, events_view, ReaderEvent, SpecEvent, XmlAttr};

verus! {

broadcast use vstd::std_specs::hash::group_hash_axioms;

/// All host-side handles live at or above this value.
pub const HANDLE_BASE: u32 = 0x1000_0000;

/// One element node of a document.
pub struct XmlNodeData {
    pub name: Vec<u8>,
    pub content: Vec<u8>,
    pub attrs: Vec<XmlAttr>,
    /// 0 = none
    pub parent: u32,
    /// 0 = none
    pub first_child: u32,
    /// 0 = none
    pub last_child: u32,
    /// 0 = none
    pub next_sib: u32,
    /// 0 = none
    pub prev_sib: u32,
    pub doc_handle: u32,
}

/// The mathematical form of a node.
pub struct NodeView {
    pub name: Seq<u8>,
    pub content: Seq<u8>,
    pub attrs: Seq<(Seq<u8>, Seq<u8>)>,
    pub parent: u32,
    pub first_child: u32,
    pub last_child: u32,
    pub next_sib: u32,
    pub prev_sib: u32,
    pub doc_handle: u32,
}

impl View for XmlNodeData {
    type V = NodeView;

    open spec fn view(&self) -> NodeView {
        NodeView {
            name: self.name@,
            content: self.content@,
            attrs: attrs_view(self.attrs@),
            parent: self.parent,
            first_child: self.first_child,
            last_child: self.last_child,
            next_sib: self.next_sib,
            prev_sib: self.prev_sib,
            doc_handle: self.doc_handle,
        }
    }
}

pub struct XmlDocData {
    pub root: u32,
}

/// A text reader: the events of a document and the current position
/// (-1 before the first event).
pub struct XmlReaderData {
    pub events: Vec<ReaderEvent>,
    pub pos: i64,
}

pub struct XmlState {
    pub next_id: u32,
    pub handles: HashSet<u32>,
    pub nodes: HashMap<u32, XmlNodeData>,
    pub docs: HashMap<u32, XmlDocData>,
    pub readers: HashMap<u32, XmlReaderData>,
}

impl XmlState {
    /// Every handle given out, and every node, document and reader, lies
    /// below `next_id`; handles and nodes lie at or above `HANDLE_BASE`. A
    /// node comes after its document, and before its next sibling.
    pub open spec fn wf(&self) -> bool {
        &&& HANDLE_BASE <= self.next_id
        &&& forall|h: u32| #[trigger]
            self.handles@.contains(h) ==> HANDLE_BASE <= h < self.next_id
        &&& forall|h: u32| #[trigger]
            self.nodes@.contains_key(h) ==> HANDLE_BASE <= h < self.next_id
        &&& forall|h: u32| #[trigger] self.docs@.contains_key(h) ==> h < self.next_id
        &&& forall|h: u32| #[trigger] self.readers@.contains_key(h) ==> h < self.next_id
        &&& forall|h: u32| #[trigger] self.readers@.contains_key(h) ==> self.readers@[h].pos >= -1
        &&& forall|h: u32| #[trigger]
            self.nodes@.contains_key(h) ==> self.nodes@[h].doc_handle < h
        &&& forall|h: u32| #[trigger]
            self.nodes@.contains_key(h) ==> (self.nodes@[h].next_sib == 0
                || self.nodes@[h].next_sib > h)
    }

    pub fn new() -> (s: XmlState)
        ensures
            s.wf(),
            s.next_id == HANDLE_BASE,
            s.handles@ == Set::<u32>::empty(),
            s.nodes@ == Map::<u32, XmlNodeData>::empty(),
            s.docs@ == Map::<u32, XmlDocData>::empty(),
            s.readers@ == Map::<u32, XmlReaderData>::empty(),
    {
        XmlState {
            next_id: HANDLE_BASE,
            handles: HashSet::new(),
            nodes: HashMap::new(),
            docs: HashMap::new(),
            readers: HashMap::new(),
        }
    }

    /// Hands out a fresh handle.
    pub fn alloc_handle(&mut self) -> (h: u32)
        requires
            old(self).wf(),
            old(self).next_id < u32::MAX,
        ensures
            final(self).wf(),
            h == old(self).next_id,
            final(self).next_id == old(self).next_id + 1,
            !old(self).handles@.contains(h),
            final(self).handles@ == old(self).handles@.insert(h),
            final(self).nodes@ == old(self).nodes@,
            final(self).docs@ == old(self).docs@,
            final(self).readers@ == old(self).readers@,
    {
        let h = self.next_id;
        self.next_id = self.next_id + 1;
        self.handles.insert(h);
        h
    }

    pub fn is_handle(&self, h: u32) -> (r: bool)
        ensures
            r == self.handles@.contains(h),
    {
        self.handles.contains(&h)
    }

    /// Forgets a handle and whatever it named.
    pub fn release(&mut self, h: u32)
        requires
            old(self).wf(),
        ensures
            final(self).wf(),
            final(self).next_id == old(self).next_id,
            final(self).handles@ == old(self).handles@.remove(h),
            final(self).nodes@ == old(self).nodes@.remove(h),
            final(self).docs@ == old(self).docs@.remove(h),
            final(self).readers@ == old(self).readers@.remove(h),
    {
        self.nodes.remove(&h);
        self.docs.remove(&h);
        self.readers.remove(&h);
        self.handles.remove(&h);
    }
}

} // verus!
