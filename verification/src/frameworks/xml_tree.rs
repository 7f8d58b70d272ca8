//! The element tree of an XML document, built from the parser's events.
//!
//! Elements are numbered by the order of their start tags (their ordinal).
//! Each element knows its parent (the element open when its start tag was
//! read), its text content (the text read while it was the innermost open
//! element) and its children in document order.
use vstd::prelude::*;
use crate::frameworks::xml_parser::{
    append_bytes, attrs_view, copy_attrs, copy_bytes, events_view, ReaderEvent, SpecEvent, XmlAttr,
};

verus! {

/// Number of start events among the first `n` events.
pub open spec fn starts_in(evs: Seq<SpecEvent>, n: int) -> int
    decreases n,
{
    if n <= 0 {
        0
    } else {
        starts_in(evs, n - 1) + if evs[n - 1] is Start {
            1int
        } else {
            0int
        }
    }
}

/// The event just before position `i` is the start of an empty element
/// (`<b/>`), whose end event follows it at once.
pub open spec fn after_empty_start(evs: Seq<SpecEvent>, i: int) -> bool {
    i >= 1 && evs[i - 1] matches SpecEvent::Start { is_empty: true, .. }
}

/// Ordinals of the elements that are open after the first `n` events,
/// outermost first. An empty element is never open; an end event closes
/// the innermost open element (if any) whatever its name, except the end
/// event of an empty element, which closes nothing.
pub open spec fn open_stack(evs: Seq<SpecEvent>, n: int) -> Seq<int>
    decreases n,
{
    if n <= 0 {
        seq![]
    } else {
        let st = open_stack(evs, n - 1);
        match evs[n - 1] {
            SpecEvent::Start { is_empty, .. } => if is_empty {
                st
            } else {
                st.push(starts_in(evs, n - 1))
            },
            SpecEvent::End { .. } => if st.len() > 0 && !after_empty_start(evs, n - 1) {
                st.drop_last()
            } else {
                st
            },
            SpecEvent::Text { .. } => st,
        }
    }
}

/// The innermost open element after the first `n` events.
pub open spec fn parent_at(evs: Seq<SpecEvent>, n: int) -> Option<int> {
    let st = open_stack(evs, n);
    if st.len() > 0 {
        Some(st.last())
    } else {
        None
    }
}

/// Position (among the first `n` events) of the start event of element `k`,
/// or -1.
pub open spec fn start_pos(evs: Seq<SpecEvent>, k: int, n: int) -> int
    decreases n,
{
    if n <= 0 {
        -1
    } else if evs[n - 1] is Start && starts_in(evs, n - 1) == k {
        n - 1
    } else {
        start_pos(evs, k, n - 1)
    }
}

/// The text content of element `k` after the first `n` events.
pub open spec fn content_of(evs: Seq<SpecEvent>, k: int, n: int) -> Seq<u8>
    decreases n,
{
    if n <= 0 {
        seq![]
    } else {
        let c = content_of(evs, k, n - 1);
        match evs[n - 1] {
            SpecEvent::Text { value, .. } => if parent_at(evs, n - 1) == Some(k) {
                c + value
            } else {
                c
            },
            _ => c,
        }
    }
}

/// The children of element `k` (as ordinals) after the first `n` events.
pub open spec fn children_of(evs: Seq<SpecEvent>, k: int, n: int) -> Seq<int>
    decreases n,
{
    if n <= 0 {
        seq![]
    } else {
        let c = children_of(evs, k, n - 1);
        if evs[n - 1] is Start && parent_at(evs, n - 1) == Some(k) {
            c.push(starts_in(evs, n - 1))
        } else {
            c
        }
    }
}

pub proof fn lemma_starts_in_mono(evs: Seq<SpecEvent>, a: int, b: int)
    requires
        0 <= a <= b,
    ensures
        starts_in(evs, a) <= starts_in(evs, b),
        starts_in(evs, b) <= starts_in(evs, a) + (b - a),
    decreases b - a,
{
    if a < b {
        lemma_starts_in_mono(evs, a, b - 1);
    }
}

/// Every open element is an element already seen.
pub proof fn lemma_stack_bounds(evs: Seq<SpecEvent>, n: int)
    requires
        0 <= n,
    ensures
        forall|i: int|
            0 <= i < open_stack(evs, n).len() ==> 0 <= #[trigger] open_stack(evs, n)[i]
                < starts_in(evs, n),
    decreases n,
{
    if n > 0 {
        lemma_stack_bounds(evs, n - 1);
        lemma_starts_in_mono(evs, 0, n - 1);
        let st = open_stack(evs, n - 1);
        let s = open_stack(evs, n);
        assert(starts_in(evs, n) >= starts_in(evs, n - 1));
        assert forall|i: int| 0 <= i < s.len() implies 0 <= #[trigger] s[i] < starts_in(evs, n) by {
            match evs[n - 1] {
                SpecEvent::Start { is_empty, .. } => {
                    if !is_empty && i == st.len() {
                        assert(s[i] == starts_in(evs, n - 1));
                    } else {
                        assert(s[i] == st[i]);
                    }
                },
                SpecEvent::End { .. } => {
                    assert(s[i] == st[i]);
                },
                SpecEvent::Text { .. } => {
                    assert(s[i] == st[i]);
                },
            }
        }
    }
}

/// The open elements are increasing ordinals.
pub proof fn lemma_stack_increasing(evs: Seq<SpecEvent>, n: int)
    requires
        0 <= n,
    ensures
        forall|i: int, j: int|
            0 <= i < j < open_stack(evs, n).len() ==> open_stack(evs, n)[i] < open_stack(
                evs,
                n,
            )[j],
    decreases n,
{
    if n > 0 {
        lemma_stack_increasing(evs, n - 1);
        lemma_stack_bounds(evs, n - 1);
        let st = open_stack(evs, n - 1);
        let s = open_stack(evs, n);
        assert forall|i: int, j: int| 0 <= i < j < s.len() implies s[i] < s[j] by {
            match evs[n - 1] {
                SpecEvent::Start { is_empty, .. } => {
                    if !is_empty && j == st.len() {
                        assert(s[i] == st[i]);
                        assert(st[i] < starts_in(evs, n - 1));
                    } else {
                        assert(s[i] == st[i] && s[j] == st[j]);
                    }
                },
                SpecEvent::End { .. } => {
                    assert(s[i] == st[i] && s[j] == st[j]);
                },
                SpecEvent::Text { .. } => {
                    assert(s[i] == st[i] && s[j] == st[j]);
                },
            }
        }
    }
}

/// Children come after their parent, before the elements not yet seen,
/// and in increasing order.
pub proof fn lemma_children_bounds(evs: Seq<SpecEvent>, k: int, n: int)
    requires
        0 <= n,
    ensures
        forall|i: int|
            0 <= i < children_of(evs, k, n).len() ==> k < #[trigger] children_of(evs, k, n)[i]
                < starts_in(evs, n),
        forall|i: int, j: int|
            0 <= i < j < children_of(evs, k, n).len() ==> children_of(evs, k, n)[i]
                < children_of(evs, k, n)[j],
    decreases n,
{
    if n > 0 {
        lemma_children_bounds(evs, k, n - 1);
        lemma_stack_bounds(evs, n - 1);
        lemma_starts_in_mono(evs, n - 1, n);
        let c = children_of(evs, k, n - 1);
        let c2 = children_of(evs, k, n);
        let m = starts_in(evs, n - 1);
        if evs[n - 1] is Start && parent_at(evs, n - 1) == Some(k) {
            let st = open_stack(evs, n - 1);
            assert(st[st.len() - 1] == k);
            assert(k < m);
            assert(c2 == c.push(m));
            assert forall|i: int| 0 <= i < c2.len() implies k < #[trigger] c2[i] < starts_in(
                evs,
                n,
            ) by {
                if i < c.len() {
                    assert(c2[i] == c[i]);
                }
            }
            assert forall|i: int, j: int| 0 <= i < j < c2.len() implies c2[i] < c2[j] by {
                assert(c2[i] == c[i]);
                if j < c.len() {
                    assert(c2[j] == c[j]);
                }
            }
        } else {
            assert(c2 == c);
        }
    }
}

/// An element has no children before its start event.
pub proof fn lemma_children_zero(evs: Seq<SpecEvent>, k: int, n: int)
    requires
        0 <= n,
        starts_in(evs, n) <= k,
    ensures
        children_of(evs, k, n + 1) =~= Seq::<int>::empty(),
    decreases n,
{
    lemma_stack_bounds(evs, n);
    let st = open_stack(evs, n);
    if st.len() > 0 {
        assert(st[st.len() - 1] < starts_in(evs, n));
    }
    assert(parent_at(evs, n) != Some(k));
    if n > 0 {
        lemma_starts_in_mono(evs, n - 1, n);
        lemma_children_zero(evs, k, n - 1);
        assert(children_of(evs, k, n) =~= Seq::<int>::empty());
    }
    assert(children_of(evs, k, n + 1) == children_of(evs, k, n));
}

/// An element has no content before its start event.
pub proof fn lemma_content_zero(evs: Seq<SpecEvent>, k: int, n: int)
    requires
        0 <= n,
        starts_in(evs, n) <= k,
    ensures
        content_of(evs, k, n + 1) =~= Seq::<u8>::empty(),
    decreases n,
{
    lemma_stack_bounds(evs, n);
    let st = open_stack(evs, n);
    if st.len() > 0 {
        assert(st[st.len() - 1] < starts_in(evs, n));
    }
    assert(parent_at(evs, n) != Some(k));
    if n > 0 {
        lemma_starts_in_mono(evs, n - 1, n);
        lemma_content_zero(evs, k, n - 1);
        assert(content_of(evs, k, n) =~= Seq::<u8>::empty());
    }
    assert(content_of(evs, k, n + 1) == content_of(evs, k, n));
}

/// What a start event at `n` changes.
pub proof fn lemma_step_start(evs: Seq<SpecEvent>, n: int)
    requires
        0 <= n < evs.len(),
        evs[n] is Start,
    ensures
        starts_in(evs, n + 1) == starts_in(evs, n) + 1,
        start_pos(evs, starts_in(evs, n), n + 1) == n,
        forall|j: int|
            0 <= j < starts_in(evs, n) ==> #[trigger] start_pos(evs, j, n + 1) == start_pos(
                evs,
                j,
                n,
            ),
        forall|j: int| #[trigger] content_of(evs, j, n + 1) == content_of(evs, j, n),
        forall|j: int|
            #[trigger] children_of(evs, j, n + 1) == if parent_at(evs, n) == Some(j) {
                children_of(evs, j, n).push(starts_in(evs, n))
            } else {
                children_of(evs, j, n)
            },
{
}

/// What an end or text event at `n` changes.
pub proof fn lemma_step_other(evs: Seq<SpecEvent>, n: int)
    requires
        0 <= n < evs.len(),
        !(evs[n] is Start),
    ensures
        starts_in(evs, n + 1) == starts_in(evs, n),
        forall|j: int| #[trigger] start_pos(evs, j, n + 1) == start_pos(evs, j, n),
        forall|j: int| #[trigger] children_of(evs, j, n + 1) == children_of(evs, j, n),
        forall|j: int|
            #[trigger] content_of(evs, j, n + 1) == match evs[n] {
                SpecEvent::Text { value, .. } => if parent_at(evs, n) == Some(j) {
                    content_of(evs, j, n) + value
                } else {
                    content_of(evs, j, n)
                },
                _ => content_of(evs, j, n),
            },
{
}

pub open spec fn ords(s: Seq<usize>) -> Seq<int> {
    s.map_values(|x: usize| x as int)
}

pub open spec fn opt_ord(o: Option<usize>) -> Option<int> {
    match o {
        Some(x) => Some(x as int),
        None => None,
    }
}

pub open spec fn start_name(e: SpecEvent) -> Seq<u8> {
    match e {
        SpecEvent::Start { name, .. } => name,
        _ => seq![],
    }
}

pub open spec fn start_attrs(e: SpecEvent) -> Seq<(Seq<u8>, Seq<u8>)> {
    match e {
        SpecEvent::Start { attrs, .. } => attrs,
        _ => seq![],
    }
}

/// The element tree gathered from an event list: per element (by ordinal)
/// its name, attributes, parent, index among its parent's children, text
/// content and children.
pub struct TreeNodes {
    pub names: Vec<Vec<u8>>,
    pub attrs: Vec<Vec<XmlAttr>>,
    pub parents: Vec<Option<usize>>,
    pub sib_idx: Vec<usize>,
    pub contents: Vec<Vec<u8>>,
    pub children: Vec<Vec<usize>>,
}

/// Element `k` of `t` is as the first `n` events describe it.
pub open spec fn tree_entry(t: TreeNodes, evs: Seq<SpecEvent>, n: int, k: int) -> bool {
    let p = start_pos(evs, k, n);
    &&& 0 <= p < n
    &&& evs[p] is Start
    &&& starts_in(evs, p) == k
    &&& t.names@[k]@ == start_name(evs[p])
    &&& attrs_view(t.attrs@[k]@) == start_attrs(evs[p])
    &&& opt_ord(t.parents@[k]) == parent_at(evs, p)
    &&& (t.parents@[k] matches Some(q) ==> t.sib_idx@[k] == children_of(evs, q as int, p).len())
    &&& t.contents@[k]@ == content_of(evs, k, n)
    &&& ords(t.children@[k]@) == children_of(evs, k, n)
}

/// `t` describes the elements seen in the first `n` events.
pub open spec fn tree_matches(t: TreeNodes, evs: Seq<SpecEvent>, n: int) -> bool {
    let m = starts_in(evs, n);
    &&& t.names@.len() == m
    &&& t.attrs@.len() == m
    &&& t.parents@.len() == m
    &&& t.sib_idx@.len() == m
    &&& t.contents@.len() == m
    &&& t.children@.len() == m
    &&& forall|k: int| 0 <= k < m ==> #[trigger] tree_entry(t, evs, n, k)
}

/// Gathers the element tree of an event list.
pub fn collect_tree(events: &Vec<ReaderEvent>) -> (t: TreeNodes)
    ensures
        tree_matches(t, events_view(events@), events@.len() as int),
{
    let ghost evs = events_view(events@);
    let mut t = TreeNodes {
        names: Vec::new(),
        attrs: Vec::new(),
        parents: Vec::new(),
        sib_idx: Vec::new(),
        contents: Vec::new(),
        children: Vec::new(),
    };
    let mut stack: Vec<usize> = Vec::new();
    let mut prev_empty = false;
    let mut n: usize = 0;
    while n < events.len()
        invariant
            evs == events_view(events@),
            n <= events@.len(),
            tree_matches(t, evs, n as int),
            ords(stack@) == open_stack(evs, n as int),
            prev_empty == after_empty_start(evs, n as int),
        decreases events@.len() - n,
    {
        proof {
            lemma_stack_bounds(evs, n as int);
        }
        let ghost m = starts_in(evs, n as int);
        let ghost t_old = t;
        assert(tree_matches(t_old, evs, n as int));
        match &events[n] {
            ReaderEvent::Start { name, attrs, depth, is_empty } => {
                let parent: Option<usize> = if stack.len() > 0 {
                    Some(stack[stack.len() - 1])
                } else {
                    None
                };
                proof {
                    if stack.len() > 0 {
                        assert(ords(stack@)[stack@.len() - 1] == stack@[stack@.len() - 1] as int);
                    }
                }
                let k = t.names.len();
                let mut idx: usize = 0;
                if let Some(p) = parent {
                    proof {
                        assert(ords(stack@)[stack@.len() - 1] < m);
                    }
                    idx = t.children[p].len();
                    let mut ch: Vec<usize> = Vec::new();
                    t.children.set_and_swap(p, &mut ch);
                    ch.push(k);
                    t.children.set_and_swap(p, &mut ch);
                }
                t.names.push(copy_bytes(name));
                t.attrs.push(copy_attrs(attrs));
                t.parents.push(parent);
                t.sib_idx.push(idx);
                t.contents.push(Vec::new());
                t.children.push(Vec::new());
                if !*is_empty {
                    stack.push(k);
                }
                prev_empty = *is_empty;
                proof {
                    assert(evs[n as int] == events@[n as int]@);
                    assert(parent_at(evs, n as int) == opt_ord(parent));
                    lemma_step_start(evs, n as int);
                    lemma_children_zero(evs, m, n as int);
                    lemma_content_zero(evs, m, n as int);
                    assert forall|j: int| 0 <= j < m + 1 implies #[trigger] tree_entry(t, evs, n + 1, j) by {
                        if j < m {
                            assert(tree_entry(t_old, evs, n as int, j));
                            assert(t.names@[j] == t_old.names@[j]);
                            assert(t.attrs@[j] == t_old.attrs@[j]);
                            assert(t.parents@[j] == t_old.parents@[j]);
                            assert(t.sib_idx@[j] == t_old.sib_idx@[j]);
                            assert(t.contents@[j] == t_old.contents@[j]);
                            assert(start_pos(evs, j, n + 1) == start_pos(evs, j, n as int));
                            assert(content_of(evs, j, n + 1) == content_of(evs, j, n as int));
                            if parent == Some(j as usize) {
                                assert(ords(t.children@[j]@) =~= ords(t_old.children@[j]@).push(
                                    m,
                                ));
                            } else {
                                assert(t.children@[j] == t_old.children@[j]);
                            }
                        } else {
                            assert(j == m);
                            assert(start_pos(evs, j, n + 1) == n);
                            assert(ords(t.children@[j]@) =~= Seq::<int>::empty());
                            assert(t.contents@[j]@ =~= Seq::<u8>::empty());
                            if let Some(q) = parent {
                                assert(0 <= q < m);
                                assert(tree_entry(t_old, evs, n as int, q as int));
                                assert(ords(t_old.children@[q as int]@) == children_of(
                                    evs,
                                    q as int,
                                    n as int,
                                ));
                                assert(ords(t_old.children@[q as int]@).len()
                                    == t_old.children@[q as int]@.len());
                                assert(t_old.children@[q as int]@.len() == children_of(
                                    evs,
                                    q as int,
                                    n as int,
                                ).len());
                            }
                        }
                    }
                    if *is_empty {
                        assert(ords(stack@) =~= open_stack(evs, n + 1));
                    } else {
                        assert(ords(stack@) =~= open_stack(evs, n as int).push(m));
                    }
                }
            },
            ReaderEvent::End { .. } => {
                if stack.len() > 0 && !prev_empty {
                    stack.pop();
                }
                prev_empty = false;
                proof {
                    assert(evs[n as int] == events@[n as int]@);
                    lemma_step_other(evs, n as int);
                    assert(ords(stack@) =~= open_stack(evs, n + 1));
                    assert forall|j: int| 0 <= j < m implies #[trigger] tree_entry(t, evs, n + 1, j) by {
                        assert(tree_entry(t_old, evs, n as int, j));
                    }
                }
            },
            ReaderEvent::Text { value, .. } => {
                let top: Option<usize> = if stack.len() > 0 {
                    Some(stack[stack.len() - 1])
                } else {
                    None
                };
                proof {
                    if stack.len() > 0 {
                        assert(ords(stack@)[stack@.len() - 1] == stack@[stack@.len() - 1] as int);
                        assert(ords(stack@)[stack@.len() - 1] < m);
                    }
                    assert(parent_at(evs, n as int) == opt_ord(top));
                }
                if let Some(p) = top {
                    let mut c: Vec<u8> = Vec::new();
                    t.contents.set_and_swap(p, &mut c);
                    append_bytes(&mut c, value);
                    t.contents.set_and_swap(p, &mut c);
                }
                prev_empty = false;
                proof {
                    assert(evs[n as int] == events@[n as int]@);
                    lemma_step_other(evs, n as int);
                    assert(ords(stack@) =~= open_stack(evs, n + 1));
                    assert forall|j: int| 0 <= j < m implies #[trigger] tree_entry(t, evs, n + 1, j) by {
                        assert(tree_entry(t_old, evs, n as int, j));
                        match top {
                            Some(p) => {
                                if p as int == j {
                                    assert(t.contents@[j]@ == t_old.contents@[j]@ + value@);
                                } else {
                                    assert(t.contents@[j] == t_old.contents@[j]);
                                }
                            },
                            None => {
                                assert(t.contents@[j] == t_old.contents@[j]);
                            },
                        }
                    }
                }
            },
        }
        n = n + 1;
    }
    t
}

} // verus!
