//! Properties of the library that span several functions or calls.
use vstd::prelude::*;
use crate::frameworks::foundation::ns_character_set::range_units;
use crate::frameworks::foundation::ns_string::{
    be16_bytes, le16_bytes, lemma_pool_lookup_some, line_range_spec, pool_lookup, string_data, text_of,
    utf16_units, StrView,
};
use crate::environment::Environment;
use crate::frameworks::foundation::NSRange;
use crate::frameworks::foundation::ns_string_compare::{
    case_insensitive_order, chars_order, compare_mask, compare_result, literal_order, numeric_order,
    unit_order_ignoring_case,
};
use crate::frameworks::foundation::ns_string_ops::{clamp_to, components, sep_at, split_from};
use crate::frameworks::foundation::ns_string_search::{first_match, last_match, occurs_at, UnitComparison};
use crate::frameworks::libxml2::{lex_order, read_result};
use crate::frameworks::xml_doc::{expected_node, handle_of, lemma_children_prefix, sib_index};
use crate::frameworks::xml_parser::{
    all_ws, attrs_from, cdata_end, comment_end, decode_entities, entity_at, find_byte,
    lemma_attrs_from_bounds, lemma_cdata_end, lemma_comment_end, lemma_find_byte, lemma_pi_end,
    lemma_scan_to, lemma_tag_name_end, lit_cdata_open, lit_comment_open, lit_doctype_lower,
    lit_doctype_upper, matches_at, named_entity, numeric_entity, parse_from, parse_u32, pi_end,
    scan_to, tag_name_end, SpecEvent,
};
use crate::frameworks::xml_state::XmlReaderData;
use crate::frameworks::xml_tree::{
    children_of, lemma_children_bounds, lemma_starts_in_mono, lemma_step_start, parent_at,
    start_pos, starts_in,
};
use crate::mem::{cstr_at, has_cstr_at, is_cstr_at, lemma_cstr_len_unique};
use crate::objc::{id, released, retained, ObjectRecord};
use crate::unicode::{lemma_utf16_encode_append, utf16_decode, utf16_encode, utf16_of_scalar};

verus! {

// ---------------------------------------------------------------------
// Documents
// ---------------------------------------------------------------------

/// The start event of an element is found again by its ordinal.
proof fn lemma_start_pos_unique(evs: Seq<SpecEvent>, p: int, n: int)
    requires
        0 <= p < n,
        evs[p] is Start,
    ensures
        start_pos(evs, starts_in(evs, p), n) == p,
    decreases n,
{
    if n - 1 > p {
        lemma_starts_in_mono(evs, p + 1, n - 1);
        assert(starts_in(evs, p + 1) == starts_in(evs, p) + 1);
        lemma_start_pos_unique(evs, p, n - 1);
    }
}

/// Each child of element `k` had `k` as its parent when it started.
proof fn lemma_children_parent(evs: Seq<SpecEvent>, k: int, n: int, i: int)
    requires
        0 <= n <= evs.len(),
        0 <= i < children_of(evs, k, n).len(),
    ensures
        ({
            let j = children_of(evs, k, n)[i];
            let p = start_pos(evs, j, evs.len() as int);
            &&& 0 <= p < n
            &&& evs[p] is Start
            &&& starts_in(evs, p) == j
            &&& parent_at(evs, p) == Some(k)
        }),
    decreases n,
{
    if n > 0 {
        let c = children_of(evs, k, n - 1);
        if evs[n - 1] is Start && parent_at(evs, n - 1) == Some(k) {
            if i < c.len() {
                assert(children_of(evs, k, n)[i] == c[i]);
                lemma_children_parent(evs, k, n - 1, i);
            } else {
                assert(children_of(evs, k, n)[i] == starts_in(evs, n - 1));
                lemma_start_pos_unique(evs, n - 1, evs.len() as int);
            }
        } else {
            lemma_children_parent(evs, k, n - 1, i);
        }
    }
}

/// In a built document, every child of an element names that element as
/// its parent.
pub proof fn law_child_names_parent(evs: Seq<SpecEvent>, doc_h: u32, k: int, i: int)
    requires
        0 <= i < children_of(evs, k, evs.len() as int).len(),
    ensures
        expected_node(evs, doc_h, children_of(evs, k, evs.len() as int)[i]).parent == handle_of(
            doc_h,
            k,
        ),
{
    lemma_children_parent(evs, k, evs.len() as int, i);
}

/// A child's sibling index is its position among its parent's children.
proof fn lemma_sib_index_is_position(evs: Seq<SpecEvent>, q: int, i: int)
    requires
        0 <= i < children_of(evs, q, evs.len() as int).len(),
    ensures
        sib_index(evs, children_of(evs, q, evs.len() as int)[i]) == i,
{
    let n = evs.len() as int;
    let c = children_of(evs, q, n);
    let j = c[i];
    lemma_children_parent(evs, q, n, i);
    let p = start_pos(evs, j, n);
    lemma_step_start(evs, p);
    assert(children_of(evs, q, p + 1) == children_of(evs, q, p).push(j));
    lemma_children_prefix(evs, q, p + 1, n);
    let m = children_of(evs, q, p).len() as int;
    assert(children_of(evs, q, p + 1)[m] == j);
    assert(c[m] == j);
    lemma_children_bounds(evs, q, n);
    if m < i {
        assert(c[m] < c[i]);
    } else if m > i {
        assert(c[i] < c[m]);
    }
}

/// In a built document, consecutive children of an element are linked
/// both ways: the next sibling of one is the other, whose previous sibling
/// is the first.
pub proof fn law_sibling_links(evs: Seq<SpecEvent>, doc_h: u32, q: int, i: int)
    requires
        0 <= i,
        i + 1 < children_of(evs, q, evs.len() as int).len(),
    ensures
        ({
            let c = children_of(evs, q, evs.len() as int);
            &&& expected_node(evs, doc_h, c[i]).next_sib == handle_of(doc_h, c[i + 1])
            &&& expected_node(evs, doc_h, c[i + 1]).prev_sib == handle_of(doc_h, c[i])
        }),
{
    let n = evs.len() as int;
    lemma_sib_index_is_position(evs, q, i);
    lemma_sib_index_is_position(evs, q, i + 1);
    lemma_children_parent(evs, q, n, i);
    lemma_children_parent(evs, q, n, i + 1);
}

/// The handles that building a document takes (the document's and one
/// per element, from the next free handle on) are held by nothing before:
/// no handle, node, document or reader has them; and distinct elements get
/// distinct handles.
pub proof fn law_document_handles_fresh(s: crate::frameworks::xml_state::XmlState, m: int)
    requires
        s.wf(),
        0 <= m,
        s.next_id + 1 + m <= u32::MAX,
    ensures
        forall|h: u32| #[trigger] crate::frameworks::xml_doc::handle_range(s.next_id as int, s.next_id + 1 + m).contains(h)
            ==> !s.handles@.contains(h) && !s.nodes@.contains_key(h) && !s.docs@.contains_key(h)
            && !s.readers@.contains_key(h),
        forall|a: int, b: int| 0 <= a < b < m ==> handle_of(s.next_id, a) != handle_of(s.next_id, b),
        forall|k: int| 0 <= k < m ==> crate::frameworks::xml_doc::handle_range(s.next_id as int, s.next_id + 1 + m).contains(
            #[trigger] handle_of(s.next_id, k),
        ),
{
}

/// In a built document, the first child of an element has no previous
/// sibling and the last child has no next sibling; both name the element
/// as their parent.
pub proof fn law_first_and_last_child_ends(evs: Seq<SpecEvent>, doc_h: u32, k: int)
    requires
        children_of(evs, k, evs.len() as int).len() > 0,
    ensures
        ({
            let c = children_of(evs, k, evs.len() as int);
            let first = expected_node(evs, doc_h, c[0]);
            let last = expected_node(evs, doc_h, c[c.len() - 1]);
            &&& first.prev_sib == 0
            &&& first.parent == handle_of(doc_h, k)
            &&& last.next_sib == 0
            &&& last.parent == handle_of(doc_h, k)
        }),
{
    let n = evs.len() as int;
    let c = children_of(evs, k, n);
    lemma_sib_index_is_position(evs, k, 0);
    lemma_sib_index_is_position(evs, k, c.len() - 1);
    lemma_children_parent(evs, k, n, 0);
    lemma_children_parent(evs, k, n, c.len() - 1);
}

/// In a built document whose handles do not wrap around, an element has a
/// first child exactly when it has a last child.
pub proof fn law_first_child_iff_last_child(evs: Seq<SpecEvent>, doc_h: u32, k: int)
    requires
        0 <= k,
        doc_h as int + 1 + starts_in(evs, evs.len() as int) <= u32::MAX,
    ensures
        (expected_node(evs, doc_h, k).first_child == 0) == (expected_node(evs, doc_h, k).last_child == 0),
{
    let n = evs.len() as int;
    let c = children_of(evs, k, n);
    if c.len() > 0 {
        lemma_children_bounds(evs, k, n);
        assert(k < c[0] < starts_in(evs, n));
        assert(k < c[c.len() - 1] < starts_in(evs, n));
    }
}

// ---------------------------------------------------------------------
// Parser events
// ---------------------------------------------------------------------

/// Each empty element's start event is followed at once by its end event
/// (same name, same depth), and no text event is all whitespace.
pub open spec fn well_paired(evs: Seq<SpecEvent>) -> bool {
    &&& forall|k: int|
        0 <= k < evs.len() && (#[trigger] evs[k] matches SpecEvent::Start { is_empty: true, .. }) ==> {
            &&& k + 1 < evs.len()
            &&& evs[k + 1] == SpecEvent::End { name: evs[k]->Start_name, depth: evs[k]->Start_depth }
        }
    &&& forall|k: int| 0 <= k < evs.len() && (#[trigger] evs[k] is Text) ==> !all_ws(evs[k]->Text_value)
}

proof fn lemma_well_paired_concat(a: Seq<SpecEvent>, b: Seq<SpecEvent>)
    requires
        well_paired(a),
        well_paired(b),
    ensures
        well_paired(a + b),
{
    let c = a + b;
    assert forall|k: int|
        0 <= k < c.len() && (#[trigger] c[k] matches SpecEvent::Start { is_empty: true, .. }) implies {
        &&& k + 1 < c.len()
        &&& c[k + 1] == SpecEvent::End { name: c[k]->Start_name, depth: c[k]->Start_depth }
    } by {
        if k < a.len() {
            assert(c[k] == a[k]);
            assert(c[k + 1] == a[k + 1]);
        } else {
            assert(c[k] == b[k - a.len()]);
            assert(c[k + 1] == b[k + 1 - a.len()]);
        }
    }
    assert forall|k: int| 0 <= k < c.len() && (#[trigger] c[k] is Text) implies !all_ws(c[k]->Text_value) by {
        if k < a.len() {
            assert(c[k] == a[k]);
        } else {
            assert(c[k] == b[k - a.len()]);
        }
    }
}

#[verifier::rlimit(60)]
proof fn lemma_parse_well_paired(d: Seq<u8>, i: int, depth: int)
    ensures
        parse_from(d, i, depth) matches Some(evs) ==> well_paired(evs),
    decreases d.len() - i,
{
    if i < 0 || i >= d.len() {
        assert(well_paired(Seq::<SpecEvent>::empty()));
    } else if d[i] != 0x3C {
        let j = scan_to(d, i, 0x3C);
        lemma_scan_to(d, i, 0x3C);
        let text = crate::frameworks::xml_parser::decode_entities(d.subrange(i, j));
        let here = if all_ws(text) {
            Seq::<SpecEvent>::empty()
        } else {
            seq![SpecEvent::Text { value: text, depth }]
        };
        assert(well_paired(here));
        lemma_parse_well_paired(d, j, depth);
        if let Some(rest) = parse_from(d, j, depth) {
            lemma_well_paired_concat(here, rest);
        }
    } else {
        let k = i + 1;
        if k >= d.len() {
            assert(well_paired(Seq::<SpecEvent>::empty()));
        } else if d[k] == 0x3F {
            lemma_pi_end(d, k);
            lemma_parse_well_paired(d, crate::frameworks::xml_parser::clamp_to(pi_end(d, k) + 2, d.len() as int), depth);
        } else if matches_at(d, k, lit_comment_open()) {
            lemma_comment_end(d, k + 3);
            lemma_parse_well_paired(d, crate::frameworks::xml_parser::clamp_to(comment_end(d, k + 3) + 3, d.len() as int), depth);
        } else if matches_at(d, k, lit_doctype_upper()) || matches_at(d, k, lit_doctype_lower()) {
            let j = scan_to(d, k, 0x3E);
            lemma_scan_to(d, k, 0x3E);
            lemma_parse_well_paired(d, if j < d.len() { j + 1 } else { j }, depth);
        } else if matches_at(d, k, lit_cdata_open()) {
            let s = k + 8;
            let j = cdata_end(d, s);
            lemma_cdata_end(d, s);
            let cdata = d.subrange(s, j);
            let here = if all_ws(cdata) {
                Seq::<SpecEvent>::empty()
            } else {
                seq![SpecEvent::Text { value: cdata, depth }]
            };
            assert(well_paired(here));
            lemma_parse_well_paired(d, crate::frameworks::xml_parser::clamp_to(j + 3, d.len() as int), depth);
            if let Some(rest) = parse_from(d, crate::frameworks::xml_parser::clamp_to(j + 3, d.len() as int), depth) {
                lemma_well_paired_concat(here, rest);
            }
        } else if d[k] == 0x2F {
            let s = k + 1;
            let j = scan_to(d, s, 0x3E);
            lemma_scan_to(d, s, 0x3E);
            let name = crate::frameworks::xml_parser::trim(d.subrange(s, j));
            let next = if j < d.len() { j + 1 } else { j };
            let here = seq![SpecEvent::End { name, depth: depth - 1 }];
            assert(well_paired(here));
            lemma_parse_well_paired(d, next, depth - 1);
            if let Some(rest) = parse_from(d, next, depth - 1) {
                lemma_well_paired_concat(here, rest);
            }
        } else {
            let te = tag_name_end(d, k);
            lemma_tag_name_end(d, k);
            lemma_attrs_from_bounds(d, te);
            let tag = d.subrange(k, te);
            if let Some((attrs, p)) = attrs_from(d, te) {
                let sc = p < d.len() && d[p] == 0x2F;
                let p2 = if sc { p + 1 } else { p };
                let p3 = if p2 < d.len() && d[p2] == 0x3E { p2 + 1 } else { p2 };
                let here = if sc {
                    seq![
                        SpecEvent::Start { name: tag, attrs, depth, is_empty: true },
                        SpecEvent::End { name: tag, depth },
                    ]
                } else {
                    seq![SpecEvent::Start { name: tag, attrs, depth, is_empty: false }]
                };
                assert(well_paired(here));
                let nd = if sc { depth } else { depth + 1 };
                lemma_parse_well_paired(d, p3, nd);
                if let Some(rest) = parse_from(d, p3, nd) {
                    lemma_well_paired_concat(here, rest);
                }
            }
        }
    }
}

/// The parser's events pair each empty element's start with its end at
/// once, and hold no text that is all whitespace.
pub proof fn law_parser_pairs_empty_elements(d: Seq<u8>)
    ensures
        parse_from(d, 0, 0) matches Some(evs) && well_paired(evs),
{
    crate::frameworks::xml_parser::lemma_parse_from_some(d, 0, 0);
    lemma_parse_well_paired(d, 0, 0);
}

/// A name is its prefix, a colon and its local name where it has a colon,
/// and its local name alone (with an empty prefix) where it has none.
pub proof fn law_prefix_and_local_name_join(n: Seq<u8>)
    ensures
        (exists|i: int| 0 <= i < n.len() && n[i] == 0x3A) ==> crate::frameworks::libxml2::prefix_part(n)
            + seq![0x3Au8] + crate::frameworks::libxml2::local_part(n) == n,
        !(exists|i: int| 0 <= i < n.len() && n[i] == 0x3A) ==> crate::frameworks::libxml2::prefix_part(n)
            == Seq::<u8>::empty() && crate::frameworks::libxml2::local_part(n) == n,
{
    lemma_find_byte(n, 0, 0x3A);
    match find_byte(n, 0, 0x3A) {
        Some(p) => {
            assert(n.subrange(0, p) + seq![0x3Au8] + n.subrange(p + 1, n.len() as int) =~= n);
        },
        None => {},
    }
}

/// The stack of open element names after checking `evs` from `s`, where
/// each start event has the depth of the elements open before it (and
/// opens one more), each text event that depth, and each end event closes
/// the innermost open element, with its name, at that element's depth;
/// `None` where an event breaks this.
pub open spec fn nesting_after(evs: Seq<SpecEvent>, s: Seq<Seq<u8>>) -> Option<Seq<Seq<u8>>>
    decreases evs.len(),
{
    if evs.len() == 0 {
        Some(s)
    } else {
        let rest = evs.drop_first();
        match evs[0] {
            SpecEvent::Start { name, depth, .. } => if depth == s.len() {
                nesting_after(rest, s.push(name))
            } else {
                None
            },
            SpecEvent::Text { depth, .. } => if depth == s.len() {
                nesting_after(rest, s)
            } else {
                None
            },
            SpecEvent::End { name, depth } => if s.len() > 0 && s.last() == name && depth == s.len() - 1 {
                nesting_after(rest, s.drop_last())
            } else {
                None
            },
        }
    }
}

/// The events balance: checked from no open element, they leave none open.
pub open spec fn balanced(evs: Seq<SpecEvent>) -> bool {
    nesting_after(evs, seq![]) == Some(Seq::<Seq<u8>>::empty())
}

proof fn lemma_nesting_concat(a: Seq<SpecEvent>, b: Seq<SpecEvent>, s: Seq<Seq<u8>>)
    ensures
        nesting_after(a + b, s) == match nesting_after(a, s) {
            Some(s2) => nesting_after(b, s2),
            None => None,
        },
    decreases a.len(),
{
    if a.len() > 0 {
        assert((a + b).drop_first() =~= a.drop_first() + b);
        assert((a + b)[0] == a[0]);
        match a[0] {
            SpecEvent::Start { name, .. } => lemma_nesting_concat(a.drop_first(), b, s.push(name)),
            SpecEvent::Text { .. } => lemma_nesting_concat(a.drop_first(), b, s),
            SpecEvent::End { .. } => lemma_nesting_concat(a.drop_first(), b, s.drop_last()),
        }
    } else {
        assert(a + b =~= b);
    }
}

/// The markup of `d` from `i` is properly nested, given the names of the
/// elements open there (innermost last): every end tag closes the
/// innermost open element and names it, every start tag ends with `>` or
/// `/>`, any other `<` starts a declaration, comment or CDATA section, and
/// no element is left open at the end.
pub open spec fn nested_from(d: Seq<u8>, i: int, open: Seq<Seq<u8>>) -> bool
    decreases d.len() - i,
{
    if i < 0 || i >= d.len() {
        open.len() == 0
    } else if d[i] != 0x3C {
        let j = scan_to(d, i, 0x3C);
        proof {
            lemma_scan_to(d, i, 0x3C);
        }
        nested_from(d, j, open)
    } else {
        let k = i + 1;
        if k >= d.len() {
            false
        } else if d[k] == 0x3F {
            proof {
                lemma_pi_end(d, k);
            }
            nested_from(d, crate::frameworks::xml_parser::clamp_to(pi_end(d, k) + 2, d.len() as int), open)
        } else if matches_at(d, k, lit_comment_open()) {
            proof {
                lemma_comment_end(d, k + 3);
            }
            nested_from(d, crate::frameworks::xml_parser::clamp_to(comment_end(d, k + 3) + 3, d.len() as int), open)
        } else if matches_at(d, k, lit_doctype_upper()) || matches_at(d, k, lit_doctype_lower()) {
            let j = scan_to(d, k, 0x3E);
            proof {
                lemma_scan_to(d, k, 0x3E);
            }
            nested_from(d, if j < d.len() { j + 1 } else { j }, open)
        } else if matches_at(d, k, lit_cdata_open()) {
            proof {
                lemma_cdata_end(d, k + 8);
            }
            nested_from(d, crate::frameworks::xml_parser::clamp_to(cdata_end(d, k + 8) + 3, d.len() as int), open)
        } else if d[k] == 0x2F {
            let j = scan_to(d, k + 1, 0x3E);
            proof {
                lemma_scan_to(d, k + 1, 0x3E);
            }
            j < d.len() && open.len() > 0 && crate::frameworks::xml_parser::trim(d.subrange(k + 1, j)) == open.last()
                && nested_from(d, j + 1, open.drop_last())
        } else {
            let te = tag_name_end(d, k);
            proof {
                lemma_tag_name_end(d, k);
                lemma_attrs_from_bounds(d, te);
            }
            match attrs_from(d, te) {
                None => false,
                Some((_, p)) => if p < d.len() && d[p] == 0x2F && p + 1 < d.len() && d[p + 1] == 0x3E {
                    nested_from(d, p + 2, open)
                } else if p < d.len() && d[p] == 0x3E {
                    nested_from(d, p + 1, open.push(d.subrange(k, te)))
                } else {
                    false
                },
            }
        }
    }
}

/// The goal of `lemma_nested_parse` at `i`.
pub open spec fn nested_goal(d: Seq<u8>, i: int, open: Seq<Seq<u8>>) -> bool {
    parse_from(d, i, open.len() as int) matches Some(evs) && nesting_after(evs, open) == Some(Seq::<Seq<u8>>::empty())
}

proof fn lemma_goal_from_step(here: Seq<SpecEvent>, rest: Seq<SpecEvent>, open: Seq<Seq<u8>>, open2: Seq<Seq<u8>>)
    requires
        nesting_after(here, open) == Some(open2),
        nesting_after(rest, open2) == Some(Seq::<Seq<u8>>::empty()),
    ensures
        nesting_after(here + rest, open) == Some(Seq::<Seq<u8>>::empty()),
{
    lemma_nesting_concat(here, rest, open);
}

proof fn lemma_text_here(value: Seq<u8>, open: Seq<Seq<u8>>)
    ensures
        nesting_after(seq![SpecEvent::Text { value, depth: open.len() as int }], open) == Some(open),
{
    let here = seq![SpecEvent::Text { value, depth: open.len() as int }];
    assert(here.drop_first() =~= Seq::<SpecEvent>::empty());
    assert(nesting_after(here.drop_first(), open) == Some(open));
}

proof fn lemma_end_here(name: Seq<u8>, open: Seq<Seq<u8>>)
    requires
        open.len() > 0,
        open.last() == name,
    ensures
        nesting_after(seq![SpecEvent::End { name, depth: open.len() - 1 }], open) == Some(open.drop_last()),
{
    let here = seq![SpecEvent::End { name, depth: open.len() - 1 }];
    assert(here.drop_first() =~= Seq::<SpecEvent>::empty());
    assert(nesting_after(here.drop_first(), open.drop_last()) == Some(open.drop_last()));
}

proof fn lemma_empty_element_here(tag: Seq<u8>, attrs: Seq<(Seq<u8>, Seq<u8>)>, open: Seq<Seq<u8>>)
    ensures
        nesting_after(
            seq![
                SpecEvent::Start { name: tag, attrs, depth: open.len() as int, is_empty: true },
                SpecEvent::End { name: tag, depth: open.len() as int },
            ],
            open,
        ) == Some(open),
{
    let depth = open.len() as int;
    let here = seq![
        SpecEvent::Start { name: tag, attrs, depth, is_empty: true },
        SpecEvent::End { name: tag, depth },
    ];
    assert(here.drop_first() =~= seq![SpecEvent::End { name: tag, depth }]);
    assert(here.drop_first().drop_first() =~= Seq::<SpecEvent>::empty());
    assert(open.push(tag).drop_last() =~= open);
    assert(nesting_after(here.drop_first().drop_first(), open) == Some(open));
    assert(nesting_after(here.drop_first(), open.push(tag)) == Some(open));
}

proof fn lemma_start_here(tag: Seq<u8>, attrs: Seq<(Seq<u8>, Seq<u8>)>, open: Seq<Seq<u8>>)
    ensures
        nesting_after(
            seq![SpecEvent::Start { name: tag, attrs, depth: open.len() as int, is_empty: false }],
            open,
        ) == Some(open.push(tag)),
{
    let here = seq![SpecEvent::Start { name: tag, attrs, depth: open.len() as int, is_empty: false }];
    assert(here.drop_first() =~= Seq::<SpecEvent>::empty());
    assert(nesting_after(here.drop_first(), open.push(tag)) == Some(open.push(tag)));
}

#[verifier::rlimit(100)]
proof fn lemma_nested_parse(d: Seq<u8>, i: int, open: Seq<Seq<u8>>)
    requires
        nested_from(d, i, open),
    ensures
        nested_goal(d, i, open),
    decreases d.len() - i,
{
    let depth = open.len() as int;
    if i < 0 || i >= d.len() {
        assert(open =~= Seq::<Seq<u8>>::empty());
    } else if d[i] != 0x3C {
        let j = scan_to(d, i, 0x3C);
        lemma_scan_to(d, i, 0x3C);
        lemma_nested_parse(d, j, open);
        let text = decode_entities(d.subrange(i, j));
        let rest = parse_from(d, j, depth)->0;
        if all_ws(text) {
            assert(parse_from(d, i, depth) == Some(Seq::<SpecEvent>::empty() + rest));
            assert(Seq::<SpecEvent>::empty() + rest =~= rest);
        } else {
            let here = seq![SpecEvent::Text { value: text, depth }];
            assert(parse_from(d, i, depth) == Some(here + rest));
            lemma_text_here(text, open);
            lemma_goal_from_step(here, rest, open, open);
        }
    } else {
        let k = i + 1;
        if d[k] == 0x3F {
            lemma_pi_end(d, k);
            lemma_nested_parse(d, crate::frameworks::xml_parser::clamp_to(pi_end(d, k) + 2, d.len() as int), open);
        } else if matches_at(d, k, lit_comment_open()) {
            lemma_comment_end(d, k + 3);
            lemma_nested_parse(d, crate::frameworks::xml_parser::clamp_to(comment_end(d, k + 3) + 3, d.len() as int), open);
        } else if matches_at(d, k, lit_doctype_upper()) || matches_at(d, k, lit_doctype_lower()) {
            let j = scan_to(d, k, 0x3E);
            lemma_scan_to(d, k, 0x3E);
            lemma_nested_parse(d, if j < d.len() { j + 1 } else { j }, open);
        } else if matches_at(d, k, lit_cdata_open()) {
            let s = k + 8;
            let j = cdata_end(d, s);
            lemma_cdata_end(d, s);
            let nx = crate::frameworks::xml_parser::clamp_to(j + 3, d.len() as int);
            lemma_nested_parse(d, nx, open);
            let cdata = d.subrange(s, j);
            let rest = parse_from(d, nx, depth)->0;
            if all_ws(cdata) {
                assert(parse_from(d, i, depth) == Some(Seq::<SpecEvent>::empty() + rest));
                assert(Seq::<SpecEvent>::empty() + rest =~= rest);
            } else {
                let here = seq![SpecEvent::Text { value: cdata, depth }];
                assert(parse_from(d, i, depth) == Some(here + rest));
                lemma_text_here(cdata, open);
                lemma_goal_from_step(here, rest, open, open);
            }
        } else if d[k] == 0x2F {
            let j = scan_to(d, k + 1, 0x3E);
            lemma_scan_to(d, k + 1, 0x3E);
            let name = crate::frameworks::xml_parser::trim(d.subrange(k + 1, j));
            let inner = open.drop_last();
            lemma_nested_parse(d, j + 1, inner);
            let here = seq![SpecEvent::End { name, depth: depth - 1 }];
            let rest = parse_from(d, j + 1, depth - 1)->0;
            assert(parse_from(d, i, depth) == Some(here + rest));
            lemma_end_here(name, open);
            lemma_goal_from_step(here, rest, open, inner);
        } else {
            let te = tag_name_end(d, k);
            lemma_tag_name_end(d, k);
            lemma_attrs_from_bounds(d, te);
            let tag = d.subrange(k, te);
            let (attrs, p) = attrs_from(d, te)->0;
            if p < d.len() && d[p] == 0x2F {
                lemma_nested_parse(d, p + 2, open);
                let here = seq![
                    SpecEvent::Start { name: tag, attrs, depth, is_empty: true },
                    SpecEvent::End { name: tag, depth },
                ];
                let rest = parse_from(d, p + 2, depth)->0;
                assert(parse_from(d, i, depth) == Some(here + rest));
                lemma_empty_element_here(tag, attrs, open);
                lemma_goal_from_step(here, rest, open, open);
            } else {
                let inner = open.push(tag);
                lemma_nested_parse(d, p + 1, inner);
                let here = seq![SpecEvent::Start { name: tag, attrs, depth, is_empty: false }];
                let rest = parse_from(d, p + 1, depth + 1)->0;
                assert(parse_from(d, i, depth) == Some(here + rest));
                lemma_start_here(tag, attrs, open);
                lemma_goal_from_step(here, rest, open, inner);
            }
        }
    }
}

/// On properly nested markup (see `nested_from`), the parser's events
/// balance: each start and text event has the depth of the elements open
/// before it, each end event closes the innermost open element with its
/// name and depth, and no element is left open.
pub proof fn law_nested_markup_gives_balanced_events(d: Seq<u8>)
    requires
        nested_from(d, 0, seq![]),
    ensures
        parse_from(d, 0, 0) matches Some(evs) && balanced(evs),
{
    lemma_nested_parse(d, 0, seq![]);
}

// ---------------------------------------------------------------------
// Entities
// ---------------------------------------------------------------------

/// Text without an `&` decodes to itself.
pub proof fn law_decoding_keeps_plain_text(s: Seq<u8>)
    requires
        forall|i: int| 0 <= i < s.len() ==> s[i] != 0x26,
    ensures
        decode_entities(s) == s,
    decreases s.len(),
{
    if s.len() > 0 {
        law_decoding_keeps_plain_text(s.drop_first());
        assert(seq![s[0]] + s.drop_first() =~= s);
    }
}

/// An entity reference decodes to no more bytes than it takes, with its
/// `&`.
proof fn lemma_entity_shorter(rest: Seq<u8>)
    requires
        entity_at(rest) is Some,
    ensures
        entity_at(rest) matches Some((r, n)) && r.len() <= n + 1 && n >= 1,
{
    lemma_find_byte(rest, 0, 0x3B);
    let semi = find_byte(rest, 0, 0x3B)->0;
    let ent = rest.subrange(0, semi);
    if named_entity(ent) is None {
        let digits = ent.drop_first();
        if digits.len() >= 1 && (digits[0] == 0x78 || digits[0] == 0x58) {
            assert(parse_u32(digits.drop_first(), 16) is Some);
        } else {
            assert(parse_u32(digits, 10) is Some);
        }
        assert(ent.len() >= 2);
    }
}

/// Decoding entities never makes a text longer.
pub proof fn law_decoding_never_lengthens(s: Seq<u8>)
    ensures
        decode_entities(s).len() <= s.len(),
    decreases s.len(),
{
    if s.len() > 0 {
        if s[0] != 0x26 {
            law_decoding_never_lengthens(s.drop_first());
        } else {
            match entity_at(s.drop_first()) {
                Some((r, n)) => {
                    lemma_entity_shorter(s.drop_first());
                    if 0 < n && n <= s.len() - 1 {
                        law_decoding_never_lengthens(s.subrange(1 + n, s.len() as int));
                    }
                },
                None => {
                    law_decoding_never_lengthens(s.drop_first());
                },
            }
        }
    }
}

// ---------------------------------------------------------------------
// Text reader
// ---------------------------------------------------------------------

/// Once a reader has reported the end, reading again reports the end.
pub proof fn law_read_past_end_stays_at_end(rd: XmlReaderData)
    requires
        read_result(rd) == 0,
        rd.pos < i64::MAX,
    ensures
        read_result(XmlReaderData { events: rd.events, pos: (rd.pos + 1) as i64 }) == 0,
{
}

// ---------------------------------------------------------------------
// Byte strings
// ---------------------------------------------------------------------

/// A string written to fresh guest memory with its terminator reads back
/// as the same string, where it holds no NUL byte.
pub proof fn law_written_string_reads_back(mem: Seq<u8>, s: Seq<u8>)
    requires
        forall|i: int| 0 <= i < s.len() ==> s[i] != 0,
    ensures
        has_cstr_at(mem + s + seq![0u8], mem.len() as int),
        cstr_at(mem + s + seq![0u8], mem.len() as int) == s,
{
    let m = mem + s + seq![0u8];
    let p = mem.len() as int;
    assert(is_cstr_at(m, p, s.len() as int)) by {
        assert forall|j: int| p <= j < p + s.len() implies m[j] != 0 by {
            assert(m[j] == s[j - p]);
        }
    }
    lemma_cstr_len_unique(m, p, s.len() as int);
    assert(m.subrange(p, p + s.len()) =~= s);
}

/// `xmlStrcmp` is an order: a string equals itself, swapping the
/// arguments negates the result, and 0 means equal.
pub proof fn law_strcmp_order(a: Seq<u8>, b: Seq<u8>)
    ensures
        lex_order(a, a) == 0,
        lex_order(a, b) == -lex_order(b, a),
        lex_order(a, b) == 0 <==> a == b,
    decreases a.len(),
{
    if a.len() > 0 && b.len() > 0 {
        law_strcmp_order(a.drop_first(), b.drop_first());
        if a[0] == b[0] && a.drop_first() == b.drop_first() {
            assert(a =~= seq![a[0]] + a.drop_first());
            assert(b =~= seq![b[0]] + b.drop_first());
        }
    }
    if a.len() > 0 {
        law_strcmp_order(a.drop_first(), a.drop_first());
    }
    if a.len() == 0 && b.len() == 0 {
        assert(a =~= b);
    }
}

// ---------------------------------------------------------------------
// Strings
// ---------------------------------------------------------------------

/// UTF-16 decoding undoes UTF-16 encoding.
pub proof fn law_utf16_round_trip(cs: Seq<char>)
    ensures
        utf16_decode(utf16_encode(cs)) == Some(cs),
    decreases cs.len(),
{
    if cs.len() > 0 {
        let c = cs[0];
        let rest = cs.drop_first();
        assert(cs =~= seq![c] + rest);
        lemma_utf16_encode_append(seq![c], rest);
        assert(seq![c].drop_last() =~= Seq::<char>::empty());
        assert(seq![c].last() == c);
        assert(utf16_encode(Seq::<char>::empty()) =~= Seq::<u16>::empty());
        assert(utf16_encode(seq![c]) == utf16_encode(seq![c].drop_last()) + utf16_of_scalar(
            c as u32,
        ));
        assert(utf16_encode(seq![c]) =~= utf16_of_scalar(c as u32));
        law_utf16_round_trip(rest);
        let e = utf16_encode(cs);
        let v = c as u32;
        vstd::utf8::char_is_scalar(c);
        if v < 0x10000 {
            assert(e.drop_first() =~= utf16_encode(rest));
            assert(e[0] == v as u16);
            assert(!(0xD800 <= v <= 0xDFFF));
            vstd::utf8::char_u32_cast(c, v);
            assert(seq![((e[0] as u32) as char)] + rest =~= cs);
        } else {
            let w = v - 0x10000;
            assert(e.skip(2) =~= utf16_encode(rest));
            let hi = (0xD800 + w / 1024) as u16;
            let lo = (0xDC00 + w % 1024) as u16;
            assert(e[0] == hi && e[1] == lo);
            assert(0 <= w < 0x100000);
            assert(0xD800 <= hi <= 0xDBFF && 0xDC00 <= lo <= 0xDFFF) by (nonlinear_arith)
                requires
                    0 <= w < 0x100000,
                    hi == 0xD800 + w / 1024,
                    lo == 0xDC00 + w % 1024,
            ;
            assert(0x10000 + (hi - 0xD800) * 1024 + (lo - 0xDC00) == v) by (nonlinear_arith)
                requires
                    w == v - 0x10000,
                    0 <= w < 0x100000,
                    hi == 0xD800 + w / 1024,
                    lo == 0xDC00 + w % 1024,
            ;
            vstd::utf8::char_u32_cast(c, v);
            assert(seq![(v as char)] + rest =~= cs);
        }
    }
}

/// Text kept as UTF-16 reads back as the text it was made from.
pub proof fn law_utf16_string_text(cs: Seq<char>)
    ensures
        text_of(StrView::Utf16(utf16_encode(cs))) == Some(cs),
        text_of(StrView::Utf8(cs)) == Some(cs),
{
    law_utf16_round_trip(cs);
}

/// Code units written as little-endian (or big-endian) bytes and read back
/// in the same order are the same units.
pub proof fn law_utf16_bytes_round_trip(u: Seq<u16>)
    ensures
        utf16_units(le16_bytes(u), false) == u,
        utf16_units(be16_bytes(u), true) == u,
    decreases u.len(),
{
    if u.len() > 0 {
        law_utf16_bytes_round_trip(u.drop_last());
        let x = u.last();
        let lb = le16_bytes(u);
        let bb = be16_bytes(u);
        let n = u.len() - 1;
        assert(le16_bytes(u.drop_last()).len() == 2 * n) by {
            lemma_le16_len(u.drop_last());
        }
        assert(be16_bytes(u.drop_last()).len() == 2 * n) by {
            lemma_le16_len(u.drop_last());
        }
        assert(((x % 256) as u8 + ((x / 256) as u8) * 256) as u16 == x) by (nonlinear_arith);
        assert((((x / 256) as u8) * 256 + (x % 256) as u8) as u16 == x) by (nonlinear_arith);
        assert forall|i: int| 0 <= i < u.len() implies #[trigger] utf16_units(lb, false)[i] == u[i] by {
            if i < n {
                assert(lb[2 * i] == le16_bytes(u.drop_last())[2 * i]);
                assert(lb[2 * i + 1] == le16_bytes(u.drop_last())[2 * i + 1]);
                assert(utf16_units(le16_bytes(u.drop_last()), false)[i] == u.drop_last()[i]);
            } else {
                assert(lb[2 * n] == (x % 256) as u8);
                assert(lb[2 * n + 1] == (x / 256) as u8);
            }
        }
        assert forall|i: int| 0 <= i < u.len() implies #[trigger] utf16_units(bb, true)[i] == u[i] by {
            if i < n {
                assert(bb[2 * i] == be16_bytes(u.drop_last())[2 * i]);
                assert(bb[2 * i + 1] == be16_bytes(u.drop_last())[2 * i + 1]);
                assert(utf16_units(be16_bytes(u.drop_last()), true)[i] == u.drop_last()[i]);
            } else {
                assert(bb[2 * n] == (x / 256) as u8);
                assert(bb[2 * n + 1] == (x % 256) as u8);
            }
        }
        assert(utf16_units(lb, false) =~= u);
        assert(utf16_units(bb, true) =~= u);
    } else {
        assert(utf16_units(le16_bytes(u), false) =~= u);
        assert(utf16_units(be16_bytes(u), true) =~= u);
    }
}

proof fn lemma_le16_len(u: Seq<u16>)
    ensures
        le16_bytes(u).len() == 2 * u.len(),
        be16_bytes(u).len() == 2 * u.len(),
    decreases u.len(),
{
    if u.len() > 0 {
        lemma_le16_len(u.drop_last());
    }
}

/// Once a static string has been made for a text, looking the text up
/// again finds it.
pub proof fn law_static_string_made_once(pool: Seq<(String, id)>, key: String, o: id)
    requires
        pool_lookup(pool, key@) is None,
    ensures
        pool_lookup(pool.push((key, o)), key@) == Some(o),
    decreases pool.len(),
{
    if pool.len() > 0 {
        assert(pool.push((key, o)).drop_first() =~= pool.drop_first().push((key, o)));
        law_static_string_made_once(pool.drop_first(), key, o);
    }
}

/// The string that the pool holds for a text is a live static string
/// holding that text.
pub proof fn law_static_string_reads_back(env: Environment, key: Seq<char>)
    requires
        env.wf(),
        pool_lookup(env.framework_state.ns_string.static_str_pool@, key) is Some,
    ensures
        ({
            let o = pool_lookup(env.framework_state.ns_string.static_str_pool@, key)->0;
            &&& env.objc.objects@.contains_key(o)
            &&& env.objc.objects@[o].is_static
            &&& string_data(env, o) == StrView::Utf8(key)
        }),
{
    let pool = env.framework_state.ns_string.static_str_pool@;
    lemma_pool_lookup_some(pool, key);
    let i = choose|i: int| 0 <= i < pool.len() && (#[trigger] pool[i]).0@ == key && pool[i].1 == pool_lookup(pool, key)->0;
}

// ---------------------------------------------------------------------
// SQLite connections
// ---------------------------------------------------------------------

/// Closing the connection that was just registered succeeds and leaves
/// the open connections as they were before it was opened; closing it a
/// second time fails. Stated over the handle sets that
/// `register_connection` and `sqlite3_close` leave.
pub proof fn law_close_undoes_open(s: crate::frameworks::libsqlite3::SqliteState)
    requires
        s.wf(),
    ensures
        ({
            let opened = s.handles@.insert(s.next_handle);
            &&& opened.contains(s.next_handle)
            &&& opened.remove(s.next_handle) == s.handles@
            &&& !opened.remove(s.next_handle).contains(s.next_handle)
        }),
{
    assert(!s.handles@.contains(s.next_handle));
    assert(s.handles@.insert(s.next_handle).remove(s.next_handle) =~= s.handles@);
}

// ---------------------------------------------------------------------
// Objects
// ---------------------------------------------------------------------

/// A release undoes a retain.
pub proof fn law_release_undoes_retain(objects: Map<u32, ObjectRecord>, o: id)
    requires
        objects.contains_key(o),
        !objects[o].is_static ==> 1 <= objects[o].refcount < u32::MAX,
    ensures
        released(retained(objects, o), o) == objects,
{
    if o != 0 && !objects[o].is_static {
        assert(released(retained(objects, o), o) =~= objects);
    }
}

// ---------------------------------------------------------------------
// Lines and character sets
// ---------------------------------------------------------------------

/// The line range found around a range contains it.
pub proof fn law_line_range_contains_range(s: Seq<u16>, range: NSRange)
    requires
        range.location + range.length <= s.len(),
        s.len() <= u32::MAX,
    ensures
        line_range_spec(s, range, true, true).0 <= range.location,
        line_range_spec(s, range, true, true).1 >= range.location + range.length,
{
    crate::frameworks::foundation::ns_string::lemma_line_ranges(s, range);
}

/// One line terminator: LF, CR, NEL, LINE SEPARATOR, PARAGRAPH SEPARATOR,
/// or CR followed by LF.
pub open spec fn one_terminator(t: Seq<u16>) -> bool {
    (t.len() == 1 && (crate::frameworks::foundation::ns_string::ends_line(t[0]) || t[0] == 0x000D)) || t
        == seq![0x000Du16, 0x000Au16]
}

proof fn lemma_line_end_terminator(s: Seq<u16>, c: int)
    requires
        0 <= c <= s.len(),
    ensures
        ({
            let (e, ce) = crate::frameworks::foundation::ns_string::line_end_from(s, c);
            (e == s.len() && ce == s.len()) || (0 <= ce < e <= s.len() && one_terminator(s.subrange(ce, e)))
        }),
    decreases s.len() - c,
{
    if c < s.len() {
        let ch = s[c];
        if ch == 0x000A && c > 0 && s[c - 1] == 0x000D {
            assert(s.subrange(c - 1, c + 1) =~= seq![0x000Du16, 0x000Au16]);
        } else if ch == 0x000D && c < s.len() - 1 && s[c + 1] == 0x000A {
            assert(s.subrange(c, c + 2) =~= seq![0x000Du16, 0x000Au16]);
        } else if ch == 0x0085 || ch == 0x2028 || ch == 0x2029 || ch == 0x000A || ch == 0x000D {
            assert(s.subrange(c, c + 1)[0] == ch);
        } else {
            lemma_line_end_terminator(s, c + 1);
        }
    }
}

proof fn lemma_line_start_boundary(s: Seq<u16>, p: int, r: int)
    requires
        0 <= p <= s.len(),
    ensures
        ({
            let q = crate::frameworks::foundation::ns_string::line_start_from(s, p, r);
            q == 0 || (0 < q <= s.len() && (crate::frameworks::foundation::ns_string::ends_line(s[q - 1]) || s[q - 1]
                == 0x000D))
        }),
    decreases p,
{
    if p > 0 {
        lemma_line_start_boundary(s, p - 1, r);
    }
}

/// The line range found around a range starts at the start of the text or
/// just after a line terminator, and ends with exactly one line terminator
/// (a CR LF pair counting as one), which begins where the contents end;
/// or, where no terminator follows, ends with the text.
pub proof fn law_line_range_on_line_boundaries(s: Seq<u16>, range: NSRange)
    requires
        range.location + range.length <= s.len(),
        s.len() <= u32::MAX,
    ensures
        ({
            let (start, end, cend) = line_range_spec(s, range, true, true);
            &&& start == 0 || (crate::frameworks::foundation::ns_string::ends_line(s[start - 1]) || s[start - 1]
                == 0x000D)
            &&& (end == s.len() && cend == s.len()) || (cend < end <= s.len() && one_terminator(
                s.subrange(cend as int, end as int),
            ))
        }),
{
    let r_start = range.location as int;
    let c0 = if range.length > 0 { range.location + range.length - 1 } else { r_start };
    lemma_line_start_boundary(s, r_start, r_start);
    lemma_line_end_terminator(s, c0);
    crate::frameworks::foundation::ns_string::lemma_line_ranges(s, range);
}

/// Restricting to the Basic Multilingual Plane only leaves units out.
pub proof fn law_bmp_set_within_full_set(ranges: Seq<(u32, u32)>)
    ensures
        range_units(ranges, true).subset_of(range_units(ranges, false)),
{
    assert forall|u: u16| range_units(ranges, true).contains(u) implies range_units(ranges, false).contains(u) by {
        let (j, cp) = choose|j: int, cp: u32| #[trigger]
            crate::frameworks::foundation::ns_character_set::range_hit(ranges, true, j, cp, u);
        assert(crate::frameworks::foundation::ns_character_set::range_hit(ranges, false, j, cp, u));
    }
}

// ---------------------------------------------------------------------
// Searching
// ---------------------------------------------------------------------

/// An exact occurrence is a stretch of the string equal to the search
/// string.
proof fn lemma_exact_occurrence(s: Seq<u16>, p: Seq<u16>, i: int)
    requires
        0 <= i <= s.len(),
        p.len() > 0,
    ensures
        occurs_at(s, p, i, s.len() as int, p.len() as int, UnitComparison::Exact) <==> (i + p.len() <= s.len()
            && s.subrange(i, i + p.len()) == p),
{
    if occurs_at(s, p, i, s.len() as int, p.len() as int, UnitComparison::Exact) {
        assert(p[p.len() - 1] <= 0xffff);
        assert forall|j: int| 0 <= j < p.len() implies #[trigger] s.subrange(i, i + p.len())[j] == p[j] by {
            assert(p[j] <= 0xffff);
        }
        assert(s.subrange(i, i + p.len()) =~= p);
    }
    if i + p.len() <= s.len() && s.subrange(i, i + p.len()) == p {
        assert forall|j: int| #![trigger p[j]] 0 <= j < p.len() implies i + j < s.len() && s[i + j] == p[j] by {
            assert(s.subrange(i, i + p.len())[j] == s[i + j]);
        }
    }
}

/// An exact forward search from `lo` finds the first position from `lo` on
/// where the string holds the search string, or reports that none does.
proof fn lemma_first_exact(s: Seq<u16>, p: Seq<u16>, lo: int)
    requires
        0 <= lo <= s.len(),
        p.len() > 0,
    ensures
        match first_match(s, p, lo, s.len() as int, s.len() as int, UnitComparison::Exact) {
            Some(i) => lo <= i && i + p.len() <= s.len() && s.subrange(i, i + p.len()) == p && forall|k: int|
                lo <= k < i ==> #[trigger] s.subrange(k, k + p.len()) != p,
            None => forall|k: int| lo <= k && k + p.len() <= s.len() ==> #[trigger] s.subrange(k, k + p.len()) != p,
        },
    decreases s.len() - lo,
{
    lemma_exact_occurrence(s, p, lo);
    if lo < s.len() {
        lemma_first_exact(s, p, lo + 1);
    } else if p.len() > 0 {
        assert forall|k: int| lo <= k && k + p.len() <= s.len() implies #[trigger] s.subrange(k, k + p.len()) != p by {}
    }
}

/// An exact backward search below `hi` finds the last position below `hi`
/// where the string holds the search string, or reports that none does.
proof fn lemma_last_exact(s: Seq<u16>, p: Seq<u16>, hi: int)
    requires
        0 <= hi <= s.len(),
        p.len() > 0,
    ensures
        match last_match(s, p, 0, hi, s.len() as int, UnitComparison::Exact) {
            Some(i) => 0 <= i < hi && i + p.len() <= s.len() && s.subrange(i, i + p.len()) == p && forall|k: int|
                i < k < hi && k + p.len() <= s.len() ==> #[trigger] s.subrange(k, k + p.len()) != p,
            None => forall|k: int| 0 <= k < hi && k + p.len() <= s.len() ==> #[trigger] s.subrange(k, k + p.len()) != p,
        },
    decreases hi,
{
    if hi > 0 {
        lemma_exact_occurrence(s, p, hi - 1);
        lemma_last_exact(s, p, hi - 1);
    }
}

/// Searching forward for a non-empty string finds its first occurrence:
/// the string holds the search string at the position found and at no
/// position before it, and where none is found it holds it nowhere.
pub proof fn law_search_finds_first_occurrence(s: Seq<u16>, p: Seq<u16>)
    requires
        p.len() > 0,
    ensures
        match first_match(s, p, 0, s.len() as int, s.len() as int, UnitComparison::Exact) {
            Some(i) => 0 <= i && i + p.len() <= s.len() && s.subrange(i, i + p.len()) == p && forall|k: int|
                0 <= k < i ==> #[trigger] s.subrange(k, k + p.len()) != p,
            None => forall|k: int| 0 <= k && k + p.len() <= s.len() ==> #[trigger] s.subrange(k, k + p.len()) != p,
        },
{
    lemma_first_exact(s, p, 0);
}

/// Searching backward finds the last occurrence: the string holds the
/// search string at the position found and at no position after it, and
/// where none is found it holds it nowhere.
pub proof fn law_backward_search_finds_last_occurrence(s: Seq<u16>, p: Seq<u16>)
    requires
        p.len() > 0,
    ensures
        match last_match(s, p, 0, s.len() as int, s.len() as int, UnitComparison::Exact) {
            Some(i) => 0 <= i && i + p.len() <= s.len() && s.subrange(i, i + p.len()) == p && forall|k: int|
                i < k && k + p.len() <= s.len() ==> #[trigger] s.subrange(k, k + p.len()) != p,
            None => forall|k: int| 0 <= k && k + p.len() <= s.len() ==> #[trigger] s.subrange(k, k + p.len()) != p,
        },
{
    lemma_last_exact(s, p, s.len() as int);
}

// ---------------------------------------------------------------------
// Comparing
// ---------------------------------------------------------------------

proof fn lemma_literal_antisymmetric(a: Seq<u16>, b: Seq<u16>, i: int)
    requires
        0 <= i,
    ensures
        literal_order(a, b, i) == -literal_order(b, a, i),
    decreases a.len() - i,
{
    if !(i < 0 || i >= a.len() || i >= b.len()) && a[i] == b[i] {
        lemma_literal_antisymmetric(a, b, i + 1);
    }
}

proof fn lemma_chars_antisymmetric(x: Seq<char>, y: Seq<char>, k: int)
    requires
        0 <= k,
    ensures
        chars_order(x, y, k) == -chars_order(y, x, k),
    decreases x.len() - k,
{
    if !(k < 0 || k >= x.len() || k >= y.len()) && x[k] == y[k] {
        lemma_chars_antisymmetric(x, y, k + 1);
    }
}

proof fn lemma_case_insensitive_antisymmetric(a: Seq<u16>, b: Seq<u16>, i: int)
    requires
        0 <= i,
    ensures
        case_insensitive_order(a, b, i) is Some <==> case_insensitive_order(b, a, i) is Some,
        case_insensitive_order(a, b, i) matches Some(x) ==> case_insensitive_order(b, a, i) == Some((-x) as i32),
    decreases a.len() - i,
{
    if !(i < 0 || i >= a.len() || i >= b.len()) {
        lemma_chars_antisymmetric(
            crate::external::lowercase_of((a[i] as u32) as char),
            crate::external::lowercase_of((b[i] as u32) as char),
            0,
        );
        assert(unit_order_ignoring_case(a[i], b[i]) == -unit_order_ignoring_case(b[i], a[i]));
        lemma_case_insensitive_antisymmetric(a, b, i + 1);
    }
}

proof fn lemma_numeric_antisymmetric(a: Seq<u16>, b: Seq<u16>, i: int, j: int)
    requires
        0 <= i,
        0 <= j,
    ensures
        numeric_order(a, b, i, j) is Some <==> numeric_order(b, a, j, i) is Some,
        numeric_order(a, b, i, j) matches Some(x) ==> numeric_order(b, a, j, i) == Some((-x) as i32),
    decreases a.len() - i + b.len() - j,
{
    if !(i < 0 || j < 0 || i >= a.len() || j >= b.len()) {
        let ea = crate::frameworks::foundation::ns_string_compare::digit_run_end(a, i);
        let eb = crate::frameworks::foundation::ns_string_compare::digit_run_end(b, j);
        if ea > i && eb > j && ea <= a.len() && eb <= b.len() {
            lemma_numeric_antisymmetric(a, b, ea, eb);
        }
        lemma_numeric_antisymmetric(a, b, i + 1, j + 1);
    }
}

/// Comparing two strings the other way round gives the opposite order,
/// under each of the masks that `compare:options:` handles; and the
/// comparison runs to its end one way exactly when it does the other way.
pub proof fn law_compare_antisymmetric(a: Seq<u16>, b: Seq<u16>, mask: u32)
    requires
        compare_mask(mask),
    ensures
        compare_result(a, b, mask) is Some <==> compare_result(b, a, mask) is Some,
        compare_result(a, b, mask) matches Some(x) ==> compare_result(b, a, mask) == Some((-x) as i32),
{
    lemma_literal_antisymmetric(a, b, 0);
    lemma_case_insensitive_antisymmetric(a, b, 0);
    lemma_numeric_antisymmetric(a, b, 0, 0);
}

proof fn lemma_literal_reflexive(a: Seq<u16>, i: int)
    requires
        0 <= i,
    ensures
        literal_order(a, a, i) == 0,
    decreases a.len() - i,
{
    if i < a.len() {
        lemma_literal_reflexive(a, i + 1);
    }
}

/// A string compares literally the same as itself.
pub proof fn law_literal_compare_reflexive(a: Seq<u16>)
    ensures
        compare_result(a, a, 0) == Some(0i32),
{
    lemma_literal_reflexive(a, 0);
}

// ---------------------------------------------------------------------
// Splitting
// ---------------------------------------------------------------------

/// The pieces put back together with the separator between each two.
pub open spec fn joined(parts: Seq<Seq<u16>>, sep: Seq<u16>) -> Seq<u16>
    decreases parts.len(),
{
    if parts.len() == 0 {
        seq![]
    } else if parts.len() == 1 {
        parts[0]
    } else {
        parts[0] + sep + joined(parts.drop_first(), sep)
    }
}

proof fn lemma_split_nonempty(s: Seq<u16>, sep: Seq<u16>, i: int, cur: Seq<u16>)
    ensures
        split_from(s, sep, i, cur).len() >= 1,
    decreases s.len() - i,
{
    if sep.len() > 0 && sep_at(s, sep, i) {
        lemma_split_nonempty(s, sep, i + sep.len(), seq![]);
    } else if 0 <= i < s.len() {
        lemma_split_nonempty(s, sep, i + 1, cur.push(s[i]));
    }
}

proof fn lemma_split_joins(s: Seq<u16>, sep: Seq<u16>, i: int, cur: Seq<u16>)
    requires
        0 <= i <= s.len(),
        sep.len() > 0,
    ensures
        joined(split_from(s, sep, i, cur), sep) == cur + s.subrange(i, s.len() as int),
    decreases s.len() - i,
{
    if sep_at(s, sep, i) {
        let rest = split_from(s, sep, i + sep.len(), seq![]);
        lemma_split_nonempty(s, sep, i + sep.len(), seq![]);
        lemma_split_joins(s, sep, i + sep.len(), seq![]);
        let parts = seq![cur] + rest;
        assert(parts.drop_first() =~= rest);
        assert(parts[0] == cur);
        assert(s.subrange(i, s.len() as int) =~= sep + s.subrange(i + sep.len(), s.len() as int));
        assert(seq![] + s.subrange(i + sep.len(), s.len() as int) =~= s.subrange(i + sep.len(), s.len() as int));
        assert(cur + sep + s.subrange(i + sep.len(), s.len() as int) =~= cur + s.subrange(i, s.len() as int));
    } else if i < s.len() {
        lemma_split_joins(s, sep, i + 1, cur.push(s[i]));
        assert(cur.push(s[i]) + s.subrange(i + 1, s.len() as int) =~= cur + s.subrange(i, s.len() as int));
    } else {
        assert(cur + s.subrange(i, s.len() as int) =~= cur);
    }
}

/// Splitting a string at a separator and joining the pieces with that
/// separator gives the string back.
pub proof fn law_split_then_join(s: Seq<u16>, sep: Seq<u16>)
    ensures
        joined(components(s, Some(sep)), sep) == s,
{
    if sep.len() > 0 {
        lemma_split_joins(s, sep, 0, seq![]);
        assert(seq![] + s.subrange(0, s.len() as int) =~= s);
    }
}

// ---------------------------------------------------------------------
// Editing
// ---------------------------------------------------------------------

/// Deleting the range that an insertion filled gives back the string as it
/// was before the insertion. Stated over what `insert_string` gives and
/// what `delete_characters_in_range` takes off.
pub proof fn law_delete_undoes_insert(s: Seq<u16>, a: Seq<u16>, loc: u32)
    requires
        loc <= s.len(),
    ensures
        ({
            let at = clamp_to(loc as int, s.len() as int);
            let inserted = s.subrange(0, at) + a + s.subrange(at, s.len() as int);
            inserted.subrange(0, loc as int) + inserted.subrange(loc + a.len(), inserted.len() as int) == s
        }),
{
    let at = clamp_to(loc as int, s.len() as int);
    let inserted = s.subrange(0, at) + a + s.subrange(at, s.len() as int);
    assert(inserted.subrange(0, loc as int) =~= s.subrange(0, at));
    assert(inserted.subrange(loc + a.len(), inserted.len() as int) =~= s.subrange(at, s.len() as int));
    assert(s.subrange(0, at) + s.subrange(at, s.len() as int) =~= s);
}

// ---------------------------------------------------------------------
// Reading and escaping strings
// ---------------------------------------------------------------------

/// The code units that `boolValue` passes over at the start: space, tab,
/// line feed, form feed, carriage return, `-`, `+` and `0`.
pub open spec fn skipped_before_bool(u: u16) -> bool {
    u == 0x20 || u == 0x09 || u == 0x0A || u == 0x0C || u == 0x0D || u == 0x2D || u == 0x2B || u == 0x30
}

/// The code units that make `boolValue` true: `Y`, `y`, `T`, `t` and the
/// digits `1` to `9`.
pub open spec fn makes_bool_true(u: u16) -> bool {
    u == 0x59 || u == 0x79 || u == 0x54 || u == 0x74 || (0x31 <= u && u <= 0x39)
}

/// What `bool_value` answers for the code units `s`.
pub open spec fn bool_value_result(s: Seq<u16>) -> bool {
    let k = crate::frameworks::foundation::ns_string_ops::bool_start(s, 0);
    0 <= k < s.len() && crate::frameworks::foundation::ns_string_ops::true_unit(s[k])
}

proof fn lemma_bool_start_skips(s: Seq<u16>, n: int, i: int)
    requires
        0 <= i <= n <= s.len(),
        forall|j: int| 0 <= j < n ==> skipped_before_bool(#[trigger] s[j]),
        n < s.len() ==> !skipped_before_bool(s[n]),
    ensures
        crate::frameworks::foundation::ns_string_ops::bool_start(s, i) == n,
    decreases n - i,
{
    if i < n {
        assert(skipped_before_bool(s[i]));
        lemma_bool_start_skips(s, n, i + 1);
    }
}

/// `boolValue` looks past leading whitespace, signs and zeros: after any
/// run of those, the string is true exactly when the next unit is `Y`, `y`,
/// `T`, `t` or a digit from `1` to `9`, whatever follows; a string made
/// only of them (or empty) is false.
pub proof fn law_bool_value_first_significant_unit(p: Seq<u16>, c: u16, rest: Seq<u16>)
    requires
        forall|j: int| 0 <= j < p.len() ==> skipped_before_bool(#[trigger] p[j]),
    ensures
        !skipped_before_bool(c) ==> (bool_value_result(p + seq![c] + rest) == makes_bool_true(c)),
        !bool_value_result(p),
{
    let s = p + seq![c] + rest;
    if !skipped_before_bool(c) {
        assert forall|j: int| 0 <= j < p.len() implies skipped_before_bool(#[trigger] s[j]) by {
            assert(s[j] == p[j]);
        }
        assert(s[p.len() as int] == c);
        lemma_bool_start_skips(s, p.len() as int, 0);
    }
    lemma_bool_start_skips(p, p.len() as int, 0);
}

/// The bytes that percent escaping keeps: ASCII letters and digits, and
/// `-_.~!*'();:@&=+$,/?%#`.
pub open spec fn kept_by_escaping(b: u8) -> bool {
    ||| (0x30 <= b && b <= 0x39)
    ||| (0x41 <= b && b <= 0x5A)
    ||| (0x61 <= b && b <= 0x7A)
    ||| b == 0x2D || b == 0x5F || b == 0x2E || b == 0x7E
    ||| b == 0x21 || b == 0x2A || b == 0x27 || b == 0x28 || b == 0x29
    ||| b == 0x3B || b == 0x3A || b == 0x40 || b == 0x26 || b == 0x3D || b == 0x2B
    ||| b == 0x24 || b == 0x2C || b == 0x2F || b == 0x3F || b == 0x25 || b == 0x23
}

/// The code point of the uppercase hexadecimal digit for `n` (below 16).
pub open spec fn upper_hex_code(n: int) -> u32 {
    if n < 10 { (48 + n) as u32 } else { (55 + n) as u32 }
}

proof fn lemma_escaped_concat(a: Seq<u8>, b: Seq<u8>)
    ensures
        crate::frameworks::foundation::ns_string_ops::escaped(a + b)
            == crate::frameworks::foundation::ns_string_ops::escaped(a) + crate::frameworks::foundation::ns_string_ops::escaped(b),
    decreases b.len(),
{
    if b.len() == 0 {
        assert(a + b =~= a);
        assert(crate::frameworks::foundation::ns_string_ops::escaped(a) + Seq::<char>::empty()
            =~= crate::frameworks::foundation::ns_string_ops::escaped(a));
    } else {
        lemma_escaped_concat(a, b.drop_last());
        assert((a + b).drop_last() =~= a + b.drop_last());
        assert((a + b).last() == b.last());
        assert(crate::frameworks::foundation::ns_string_ops::escaped(a) + crate::frameworks::foundation::ns_string_ops::escaped(b.drop_last())
            + crate::frameworks::foundation::ns_string_ops::escape_byte(b.last())
            =~= crate::frameworks::foundation::ns_string_ops::escaped(a) + (crate::frameworks::foundation::ns_string_ops::escaped(b.drop_last())
            + crate::frameworks::foundation::ns_string_ops::escape_byte(b.last())));
    }
}

/// Percent escaping works byte by byte: wherever a byte stands in the
/// input, the output holds, at the same place between the escapes of what
/// comes before and after, the byte itself as a char where it is an ASCII
/// letter or digit or one of `-_.~!*'();:@&=+$,/?%#`, and otherwise `%`
/// followed by the two uppercase hexadecimal digits of its value.
pub proof fn law_percent_escapes_byte_by_byte(a: Seq<u8>, x: u8, c: Seq<u8>)
    ensures
        ({
            let out = crate::frameworks::foundation::ns_string_ops::escaped(a + seq![x] + c);
            let before = crate::frameworks::foundation::ns_string_ops::escaped(a);
            let after = crate::frameworks::foundation::ns_string_ops::escaped(c);
            &&& kept_by_escaping(x) ==> out == before + seq![x as char] + after
            &&& !kept_by_escaping(x) ==> {
                &&& out.len() == before.len() + 3 + after.len()
                &&& out.subrange(0, before.len() as int) == before
                &&& out[before.len() as int] == '%'
                &&& out[before.len() as int + 1] as u32 == upper_hex_code(x as int / 16)
                &&& out[before.len() as int + 2] as u32 == upper_hex_code(x as int % 16)
                &&& out.subrange(before.len() as int + 3, out.len() as int) == after
            }
        }),
{
    lemma_escaped_concat(a + seq![x], c);
    lemma_escaped_concat(a, seq![x]);
    let one = seq![x];
    assert(one.drop_last() =~= Seq::<u8>::empty());
    assert(crate::frameworks::foundation::ns_string_ops::escaped(one)
        == crate::frameworks::foundation::ns_string_ops::escaped(Seq::<u8>::empty())
        + crate::frameworks::foundation::ns_string_ops::escape_byte(x));
    assert(crate::frameworks::foundation::ns_string_ops::escaped(one)
        =~= crate::frameworks::foundation::ns_string_ops::escape_byte(x));
    let out = crate::frameworks::foundation::ns_string_ops::escaped(a + seq![x] + c);
    let before = crate::frameworks::foundation::ns_string_ops::escaped(a);
    let after = crate::frameworks::foundation::ns_string_ops::escaped(c);
    let mid = crate::frameworks::foundation::ns_string_ops::escape_byte(x);
    assert(out == before + mid + after);
    if !kept_by_escaping(x) {
        assert(out.subrange(0, before.len() as int) =~= before);
        assert(out.subrange(before.len() as int + 3, out.len() as int) =~= after);
        let hi = (x / 16) as u8;
        let lo = (x % 16) as u8;
        assert(mid[1] == crate::frameworks::foundation::ns_string_ops::hex_digit(hi));
        assert(mid[2] == crate::frameworks::foundation::ns_string_ops::hex_digit(lo));
        assert(out[before.len() as int + 1] == mid[1]);
        assert(out[before.len() as int + 2] == mid[2]);
    }
}

/// The size of a texture's pixel data: with one byte per channel
/// (`GL_UNSIGNED_BYTE`), a pixel of `GL_ALPHA` or `GL_LUMINANCE` takes one
/// byte, of `GL_LUMINANCE_ALPHA` two, of `GL_RGB` three and of `GL_RGBA` or
/// `GL_BGRA_EXT` four; with a packed 16-bit type (`5_6_5`, `4_4_4_4`,
/// `5_5_5_1`) every pixel takes two bytes. The size of `n` pixels is `n`
/// times that.
pub proof fn law_texture_bytes_per_pixel(n: int, format: u32, type_: u32)
    ensures
        ({
            let bpp = crate::frameworks::opengles::gles_guest::bytes_per_pixel(format, type_);
            &&& type_ == 0x1401 && (format == 0x1906 || format == 0x1909) ==> bpp == Some(1u32) && n * bpp->0 == n
            &&& type_ == 0x1401 && format == 0x190A ==> bpp == Some(2u32) && n * bpp->0 == 2 * n
            &&& type_ == 0x1401 && format == 0x1907 ==> bpp == Some(3u32) && n * bpp->0 == 3 * n
            &&& type_ == 0x1401 && (format == 0x1908 || format == 0x80E1) ==> bpp == Some(4u32) && n * bpp->0 == 4 * n
            &&& (type_ == 0x8363 || type_ == 0x8033 || type_ == 0x8034) ==> bpp == Some(2u32) && n * bpp->0 == 2 * n
            &&& type_ == 0x1401 && !(format == 0x1906 || format == 0x1909 || format == 0x190A || format == 0x1907
                || format == 0x1908 || format == 0x80E1) ==> bpp is None
            &&& !(type_ == 0x1401 || type_ == 0x8363 || type_ == 0x8033 || type_ == 0x8034) ==> bpp is None
        }),
{
}

/// The number that decimal digit units write, most significant first.
pub open spec fn decimal_number(ds: Seq<u16>) -> int
    decreases ds.len(),
{
    if ds.len() == 0 {
        0
    } else {
        decimal_number(ds.drop_last()) * 10 + (ds.last() as int - 48)
    }
}

pub open spec fn is_decimal_digit(u: u16) -> bool {
    48 <= u && u <= 57
}

pub open spec fn is_int_space(u: u16) -> bool {
    u == 0x20 || u == 0x09 || u == 0x0A || u == 0x0C || u == 0x0D
}

/// `v` held to the range of a 32-bit signed integer.
pub open spec fn held_to_i32(v: int) -> int {
    if v < -2147483648 { -2147483648 } else if v > 2147483647 { 2147483647 } else { v }
}

proof fn lemma_int_skip(s: Seq<u16>, n: int, i: int)
    requires
        0 <= i <= n <= s.len(),
        forall|j: int| 0 <= j < n ==> is_int_space(#[trigger] s[j]),
        n < s.len() ==> !is_int_space(s[n]),
    ensures
        crate::frameworks::foundation::ns_string_ops::skip_spaces(s, i) == n,
    decreases n - i,
{
    if i < n {
        assert(is_int_space(s[i]));
        lemma_int_skip(s, n, i + 1);
    }
}

proof fn lemma_int_run_end(s: Seq<u16>, e: int, i: int)
    requires
        0 <= i <= e <= s.len(),
        forall|j: int| i <= j < e ==> is_decimal_digit(#[trigger] s[j]),
        e < s.len() ==> !is_decimal_digit(s[e]),
    ensures
        crate::frameworks::foundation::ns_string_compare::digit_run_end(s, i) == e,
    decreases e - i,
{
    if i < e {
        assert(is_decimal_digit(s[i]));
        lemma_int_run_end(s, e, i + 1);
    }
}

proof fn lemma_int_digits_value(s: Seq<u16>, start: int, ds: Seq<u16>, k: int)
    requires
        0 <= start,
        0 <= k <= ds.len(),
        start + ds.len() <= s.len(),
        forall|j: int| 0 <= j < ds.len() ==> s[start + j] == #[trigger] ds[j],
    ensures
        crate::frameworks::foundation::ns_string_compare::digits_value(s, start, start + k) == decimal_number(
            ds.subrange(0, k),
        ),
    decreases k,
{
    if k > 0 {
        lemma_int_digits_value(s, start, ds, k - 1);
        assert(ds.subrange(0, k).drop_last() =~= ds.subrange(0, k - 1));
        assert(ds.subrange(0, k).last() == ds[k - 1]);
        assert(s[start + k - 1] == ds[k - 1]);
    }
}

/// `intValue` reads leading whitespace (space, tab, line feed, form feed,
/// carriage return), then an optional `+` or `-`, then a run of decimal
/// digits, and gives the number they write with that sign, held to the
/// range of a 32-bit signed integer; whatever follows the digits does not
/// count. Without digits it gives 0, and so for digits beyond the range of
/// a 64-bit signed integer.
pub proof fn law_int_value_reads_leading_integer(
    ws: Seq<u16>,
    sign: Seq<u16>,
    ds: Seq<u16>,
    tail: Seq<u16>,
)
    requires
        forall|j: int| 0 <= j < ws.len() ==> is_int_space(#[trigger] ws[j]),
        sign.len() == 0 || sign == seq![0x2Bu16] || sign == seq![0x2Du16],
        forall|j: int| 0 <= j < ds.len() ==> is_decimal_digit(#[trigger] ds[j]),
        tail.len() > 0 ==> !is_decimal_digit(tail[0]),
        sign.len() == 0 && ds.len() == 0 ==> (tail.len() > 0 ==> !is_int_space(tail[0]) && tail[0] != 0x2B
            && tail[0] != 0x2D),
    ensures
        ({
            let v = crate::frameworks::foundation::ns_string_ops::int_value_of(ws + sign + ds + tail) as int;
            let n = decimal_number(ds);
            &&& ds.len() > 0 && n <= i64::MAX ==> v == held_to_i32(if sign == seq![0x2Du16] { -n } else { n })
            &&& (ds.len() == 0 || n > i64::MAX) ==> v == 0
        }),
{
    let s = ws + sign + ds + tail;
    let p = ws.len() as int;
    assert forall|j: int| 0 <= j < p implies is_int_space(#[trigger] s[j]) by {
        assert(s[j] == ws[j]);
    }
    if p < s.len() {
        if sign.len() > 0 {
            assert(s[p] == sign[0]);
        } else if ds.len() > 0 {
            assert(s[p] == ds[0]);
        } else {
            assert(s[p] == tail[0]);
        }
    }
    lemma_int_skip(s, p, 0);
    let start = p + sign.len();
    let e = start + ds.len();
    assert forall|j: int| start <= j < e implies is_decimal_digit(#[trigger] s[j]) by {
        assert(s[j] == ds[j - start]);
    }
    if e < s.len() {
        assert(s[e] == tail[0]);
    }
    lemma_int_run_end(s, e, start);
    assert forall|j: int| 0 <= j < ds.len() implies s[start + j] == #[trigger] ds[j] by {}
    lemma_int_digits_value(s, start, ds, ds.len() as int);
    assert(ds.subrange(0, ds.len() as int) =~= ds);
    if sign.len() > 0 {
        assert(s[p] == sign[0]);
    }
    lemma_decimal_number_nonneg(ds);
}

proof fn lemma_decimal_number_nonneg(ds: Seq<u16>)
    requires
        forall|j: int| 0 <= j < ds.len() ==> is_decimal_digit(#[trigger] ds[j]),
    ensures
        decimal_number(ds) >= 0,
    decreases ds.len(),
{
    if ds.len() > 0 {
        assert(is_decimal_digit(ds[ds.len() - 1]));
        lemma_decimal_number_nonneg(ds.drop_last());
    }
}

} // verus!
