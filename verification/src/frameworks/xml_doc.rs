//! Building a document: the parser's events become element nodes with
//! parent, child and sibling links, stored in the handle tables.
use vstd::prelude::*;
use crate::frameworks::xml_parser::{
    copy_attrs, copy_bytes, events_view, parse_from, xml_parse_events, ReaderEvent, SpecEvent,
};
use crate::frameworks::xml_state::{NodeView, XmlDocData, XmlNodeData, XmlState};
use crate::frameworks::xml_tree::{
    children_of, collect_tree, content_of, lemma_children_bounds, lemma_stack_bounds,
    lemma_step_other, lemma_step_start, ords, parent_at, start_attrs, start_name, start_pos,
    starts_in, tree_entry, TreeNodes,
};

verus! {

broadcast use vstd::std_specs::hash::group_hash_axioms;

/// The events of `data` (the parser finishes on every input).
pub open spec fn parsed_events(data: Seq<u8>) -> Seq<SpecEvent> {
    match parse_from(data, 0, 0) {
        Some(evs) => evs,
        None => seq![],
    }
}

/// Number of elements in an event list.
pub open spec fn element_count(evs: Seq<SpecEvent>) -> int {
    starts_in(evs, evs.len() as int)
}

/// Handle of element `k` of the document with handle `doc_h`.
pub open spec fn handle_of(doc_h: u32, k: int) -> u32 {
    (doc_h + 1 + k) as u32
}

pub open spec fn opt_handle(doc_h: u32, o: Option<int>) -> u32 {
    match o {
        Some(q) => handle_of(doc_h, q),
        None => 0,
    }
}

/// Position of element `k` among its parent's children.
pub open spec fn sib_index(evs: Seq<SpecEvent>, k: int) -> int {
    let p = start_pos(evs, k, evs.len() as int);
    match parent_at(evs, p) {
        Some(q) => children_of(evs, q, p).len() as int,
        None => 0,
    }
}

/// The node that element `k` of `evs` becomes in the document `doc_h`.
pub open spec fn expected_node(evs: Seq<SpecEvent>, doc_h: u32, k: int) -> NodeView {
    let n = evs.len() as int;
    let p = start_pos(evs, k, n);
    let ch = children_of(evs, k, n);
    let i = sib_index(evs, k);
    let prev = match parent_at(evs, p) {
        Some(q) => if i > 0 {
            handle_of(doc_h, children_of(evs, q, n)[i - 1])
        } else {
            0u32
        },
        None => 0u32,
    };
    let next = match parent_at(evs, p) {
        Some(q) => if i + 1 < children_of(evs, q, n).len() {
            handle_of(doc_h, children_of(evs, q, n)[i + 1])
        } else {
            0u32
        },
        None => 0u32,
    };
    NodeView {
        name: start_name(evs[p]),
        content: content_of(evs, k, n),
        attrs: start_attrs(evs[p]),
        parent: opt_handle(doc_h, parent_at(evs, p)),
        first_child: if ch.len() > 0 {
            handle_of(doc_h, ch[0])
        } else {
            0u32
        },
        last_child: if ch.len() > 0 {
            handle_of(doc_h, ch.last())
        } else {
            0u32
        },
        next_sib: next,
        prev_sib: prev,
        doc_handle: doc_h,
    }
}

/// Children lists only grow, by appending.
pub proof fn lemma_children_prefix(evs: Seq<SpecEvent>, q: int, a: int, b: int)
    requires
        0 <= a <= b,
    ensures
        children_of(evs, q, a).len() <= children_of(evs, q, b).len(),
        forall|i: int|
            0 <= i < children_of(evs, q, a).len() ==> #[trigger] children_of(evs, q, a)[i]
                == children_of(evs, q, b)[i],
    decreases b - a,
{
    if a < b {
        lemma_children_prefix(evs, q, a, b - 1);
        let c = children_of(evs, q, b - 1);
        let c2 = children_of(evs, q, b);
        assert forall|i: int| 0 <= i < c.len() implies #[trigger] c[i] == c2[i] by {
            if evs[b - 1] is Start && parent_at(evs, b - 1) == Some(q) {
                assert(c2 == c.push(starts_in(evs, b - 1)));
            }
        }
    }
}

/// An element sits among its parent's children at its sibling index.
pub proof fn lemma_sibling_position(evs: Seq<SpecEvent>, k: int, q: int)
    requires
        0 <= start_pos(evs, k, evs.len() as int) < evs.len(),
        evs[start_pos(evs, k, evs.len() as int)] is Start,
        starts_in(evs, start_pos(evs, k, evs.len() as int)) == k,
        parent_at(evs, start_pos(evs, k, evs.len() as int)) == Some(q),
    ensures
        0 <= sib_index(evs, k) < children_of(evs, q, evs.len() as int).len(),
        children_of(evs, q, evs.len() as int)[sib_index(evs, k)] == k,
{
    let n = evs.len() as int;
    let p = start_pos(evs, k, n);
    lemma_step_start(evs, p);
    assert(children_of(evs, q, p + 1) == children_of(evs, q, p).push(k));
    lemma_children_prefix(evs, q, p + 1, n);
    assert(children_of(evs, q, p + 1)[children_of(evs, q, p).len() as int] == k);
}

/// Node `k` of the tree gathered from `evs`, as stored under `doc_h`.
fn make_node(t: &TreeNodes, k: usize, doc_h: u32, Ghost(evs): Ghost<Seq<SpecEvent>>) -> (nd:
    XmlNodeData)
    requires
        crate::frameworks::xml_tree::tree_matches(*t, evs, evs.len() as int),
        k < t.names@.len(),
        doc_h + 1 + t.names@.len() <= u32::MAX,
    ensures
        nd@ == expected_node(evs, doc_h, k as int),
        nd.doc_handle == doc_h,
        nd.next_sib == 0 || nd.next_sib > doc_h + 1 + k,
{
    let ghost n = evs.len() as int;
    let m = t.names.len();
    proof {
        assert(tree_entry(*t, evs, n, k as int));
        lemma_children_bounds(evs, k as int, n);
    }
    let ghost p = start_pos(evs, k as int, n);
    let parent: u32 = match t.parents[k] {
        Some(q) => {
            proof {
                lemma_stack_bounds(evs, p);
                crate::frameworks::xml_tree::lemma_starts_in_mono(evs, p, n);
                let st = crate::frameworks::xml_tree::open_stack(evs, p);
                assert(st[st.len() - 1] == q as int);
            }
            doc_h + 1 + q as u32
        },
        None => 0,
    };
    let ch = &t.children[k];
    let first_child: u32 = if ch.len() > 0 {
        proof {
            assert(ords(ch@)[0] == ch@[0] as int);
        }
        doc_h + 1 + ch[0] as u32
    } else {
        0
    };
    let last_child: u32 = if ch.len() > 0 {
        proof {
            assert(ords(ch@)[ch@.len() - 1] == ch@[ch@.len() - 1] as int);
        }
        doc_h + 1 + ch[ch.len() - 1] as u32
    } else {
        0
    };
    let mut prev: u32 = 0;
    let mut next: u32 = 0;
    if let Some(q) = t.parents[k] {
        proof {
            lemma_stack_bounds(evs, p);
            crate::frameworks::xml_tree::lemma_starts_in_mono(evs, p, n);
            let st = crate::frameworks::xml_tree::open_stack(evs, p);
            assert(st[st.len() - 1] == q as int);
            assert(tree_entry(*t, evs, n, q as int));
            lemma_sibling_position(evs, k as int, q as int);
            lemma_children_bounds(evs, q as int, n);
        }
        let c = &t.children[q];
        let i = t.sib_idx[k];
        assert(i as int == sib_index(evs, k as int));
        assert(ords(c@).len() == c@.len());
        assert(ords(c@) == children_of(evs, q as int, n));
        assert(sib_index(evs, k as int) < children_of(evs, q as int, n).len());
        assert(i < c.len());
        if i > 0 {
            proof {
                assert(ords(c@)[i - 1] == c@[i - 1] as int);
            }
            prev = doc_h + 1 + c[i - 1] as u32;
        }
        if i + 1 < c.len() {
            proof {
                assert(ords(c@)[i + 1] == c@[i + 1] as int);
            }
            proof {
                assert(ords(c@)[i as int] == c@[i as int] as int);
                assert(children_of(evs, q as int, n)[i as int] < children_of(evs, q as int, n)[i + 1]);
            }
            next = doc_h + 1 + c[i + 1] as u32;
        }
    }
    XmlNodeData {
        name: copy_bytes(&t.names[k]),
        content: copy_bytes(&t.contents[k]),
        attrs: copy_attrs(&t.attrs[k]),
        parent,
        first_child,
        last_child,
        next_sib: next,
        prev_sib: prev,
        doc_handle: doc_h,
    }
}

/// `new` is `old` with the nodes of the document `doc_h` built from `evs`
/// added under their handles.
pub open spec fn nodes_added(
    old: Map<u32, XmlNodeData>,
    new: Map<u32, XmlNodeData>,
    evs: Seq<SpecEvent>,
    doc_h: u32,
) -> bool {
    let m = element_count(evs);
    &&& forall|h: u32| #[trigger]
        new.contains_key(h) <==> (old.contains_key(h) || (doc_h < h <= doc_h + m))
    &&& forall|h: u32| #[trigger] old.contains_key(h) ==> new[h] == old[h]
    &&& forall|k: int| 0 <= k < m ==> #[trigger] new[handle_of(doc_h, k)]@ == expected_node(evs, doc_h, k)
}

/// The handles in `[lo, hi)`.
pub open spec fn handle_range(lo: int, hi: int) -> Set<u32> {
    Set::new(|h: u32| lo <= h < hi)
}

/// Parses XML bytes into a document held in the tables, and returns the
/// document's handle. No document is made from bytes without any event
/// (nothing is allocated then), nor from events without an element (the
/// document's handle is allocated all the same). The document's handle is
/// followed by one handle per element, in document order.
pub fn build_doc(state: &mut XmlState, data: &[u8]) -> (r: Option<u32>)
    requires
        old(state).wf(),
        data@.len() <= i32::MAX,
        old(state).next_id + 1 + element_count(parsed_events(data@)) <= u32::MAX,
    ensures
        final(state).wf(),
        final(state).readers@ == old(state).readers@,
        parsed_events(data@).len() == 0 ==> {
            &&& r is None
            &&& final(state).next_id == old(state).next_id
            &&& final(state).handles@ == old(state).handles@
            &&& final(state).nodes@ == old(state).nodes@
            &&& final(state).docs@ == old(state).docs@
        },
        parsed_events(data@).len() > 0 ==> {
            let evs = parsed_events(data@);
            let d = old(state).next_id;
            let m = element_count(evs);
            &&& final(state).next_id == d + 1 + m
            &&& final(state).handles@ == old(state).handles@.union(
                handle_range(d as int, d + 1 + m),
            )
            &&& nodes_added(old(state).nodes@, final(state).nodes@, evs, d)
            &&& m == 0 ==> r is None && final(state).docs@ == old(state).docs@
            &&& m > 0 ==> r == Some(d) && final(state).docs@ == old(state).docs@.insert(
                d,
                XmlDocData { root: (d + 1) as u32 },
            )
        },
{
    let events = xml_parse_events(data);
    let ghost evs = events_view(events@);
    assert(evs == parsed_events(data@));
    if events.len() == 0 {
        return None;
    }
    let ghost old_state = *state;
    proof {
        crate::frameworks::xml_tree::lemma_starts_in_mono(evs, 0, evs.len() as int);
    }
    let doc_h = state.alloc_handle();
    let t = collect_tree(&events);
    let m = t.names.len();
    assert(evs.len() == events@.len());
    let mut k: usize = 0;
    while k < m
        invariant
            state.wf(),
            k <= m,
            m == element_count(evs),
            doc_h == old_state.next_id,
            doc_h + 1 + m <= u32::MAX,
            state.next_id == doc_h + 1 + k,
            state.handles@ == old_state.handles@.union(handle_range(doc_h as int, doc_h + 1 + k)),
            state.nodes@ == old_state.nodes@,
            state.docs@ == old_state.docs@,
            state.readers@ == old_state.readers@,
        decreases m - k,
    {
        state.alloc_handle();
        k = k + 1;
        assert(state.handles@ =~= old_state.handles@.union(handle_range(doc_h as int, doc_h + 1 + k)));
    }
    let mut k: usize = 0;
    while k < m
        invariant
            state.wf(),
            k <= m,
            m == t.names@.len(),
            m == element_count(evs),
            crate::frameworks::xml_tree::tree_matches(t, evs, evs.len() as int),
            doc_h == old_state.next_id,
            doc_h + 1 + m <= u32::MAX,
            state.next_id == doc_h + 1 + m,
            state.handles@ == old_state.handles@.union(handle_range(doc_h as int, doc_h + 1 + m)),
            old_state.wf(),
            forall|h: u32| #[trigger]
                state.nodes@.contains_key(h) <==> (old_state.nodes@.contains_key(h) || (doc_h < h
                    <= doc_h + k)),
            forall|h: u32| #[trigger]
                old_state.nodes@.contains_key(h) ==> state.nodes@[h] == old_state.nodes@[h],
            forall|j: int|
                0 <= j < k ==> #[trigger] state.nodes@[handle_of(doc_h, j)]@ == expected_node(
                    evs,
                    doc_h,
                    j,
                ),
            state.docs@ == old_state.docs@,
            state.readers@ == old_state.readers@,
        decreases m - k,
    {
        let nd = make_node(&t, k, doc_h, Ghost(evs));
        let h = doc_h + 1 + k as u32;
        assert(doc_h < h);
        assert(h == handle_of(doc_h, k as int));
        assert(!old_state.nodes@.contains_key(h));
        state.nodes.insert(h, nd);
        k = k + 1;
        assert(state.handles@.contains(h));
    }
    if m == 0 {
        return None;
    }
    state.docs.insert(doc_h, XmlDocData { root: doc_h + 1 });
    Some(doc_h)
}

} // verus!
