//! A small XML pull parser: turns a byte string into a flat list of start,
//! end and text events. Entities are decoded in text and attribute values;
//! processing instructions, comments and DOCTYPE declarations are skipped.
use vstd::prelude::*;
use vstd::utf8::*;
use crate::unicode::utf8_encode_scalar;

verus! {

// ---------------------------------------------------------------------
// Events
// ---------------------------------------------------------------------

pub struct XmlAttr {
    pub name: Vec<u8>,
    pub value: Vec<u8>,
}

impl View for XmlAttr {
    type V = (Seq<u8>, Seq<u8>);

    open spec fn view(&self) -> (Seq<u8>, Seq<u8>) {
        (self.name@, self.value@)
    }
}

pub open spec fn attrs_view(attrs: Seq<XmlAttr>) -> Seq<(Seq<u8>, Seq<u8>)> {
    attrs.map_values(|a: XmlAttr| a@)
}

/// One step produced by the pull parser.
pub enum ReaderEvent {
    Start { name: Vec<u8>, attrs: Vec<XmlAttr>, depth: i32, is_empty: bool },
    End { name: Vec<u8>, depth: i32 },
    Text { value: Vec<u8>, depth: i32 },
}

/// The mathematical form of an event.
pub enum SpecEvent {
    Start { name: Seq<u8>, attrs: Seq<(Seq<u8>, Seq<u8>)>, depth: int, is_empty: bool },
    End { name: Seq<u8>, depth: int },
    Text { value: Seq<u8>, depth: int },
}

impl View for ReaderEvent {
    type V = SpecEvent;

    open spec fn view(&self) -> SpecEvent {
        match self {
            ReaderEvent::Start { name, attrs, depth, is_empty } => SpecEvent::Start {
                name: name@,
                attrs: attrs_view(attrs@),
                depth: *depth as int,
                is_empty: *is_empty,
            },
            ReaderEvent::End { name, depth } => SpecEvent::End { name: name@, depth: *depth as int },
            ReaderEvent::Text { value, depth } => SpecEvent::Text {
                value: value@,
                depth: *depth as int,
            },
        }
    }
}

pub open spec fn events_view(events: Seq<ReaderEvent>) -> Seq<SpecEvent> {
    events.map_values(|e: ReaderEvent| e@)
}

/// Copies a byte vector.
pub fn copy_bytes(v: &[u8]) -> (r: Vec<u8>)
    ensures
        r@ == v@,
{
    let mut r: Vec<u8> = Vec::new();
    let mut i: usize = 0;
    while i < v.len()
        invariant
            i <= v@.len(),
            r@ == v@.subrange(0, i as int),
        decreases v@.len() - i,
    {
        r.push(v[i]);
        i = i + 1;
        assert(r@ =~= v@.subrange(0, i as int));
    }
    assert(r@ =~= v@);
    r
}

impl XmlAttr {
    pub fn duplicate(&self) -> (r: XmlAttr)
        ensures
            r@ == self@,
    {
        XmlAttr { name: copy_bytes(&self.name), value: copy_bytes(&self.value) }
    }
}

/// Copies a list of attributes.
pub fn copy_attrs(v: &Vec<XmlAttr>) -> (r: Vec<XmlAttr>)
    ensures
        attrs_view(r@) == attrs_view(v@),
{
    let mut r: Vec<XmlAttr> = Vec::new();
    let mut i: usize = 0;
    while i < v.len()
        invariant
            i <= v@.len(),
            attrs_view(r@) == attrs_view(v@.subrange(0, i as int)),
        decreases v@.len() - i,
    {
        let ghost before = r@;
        r.push(v[i].duplicate());
        proof {
            assert(attrs_view(r@) =~= attrs_view(before).push(v@[i as int]@));
            assert(attrs_view(v@.subrange(0, i + 1)) =~= attrs_view(v@.subrange(0, i as int)).push(
                v@[i as int]@,
            ));
        }
        i = i + 1;
    }
    assert(v@.subrange(0, v@.len() as int) =~= v@);
    r
}

// ---------------------------------------------------------------------
// Character classes and scanning
// ---------------------------------------------------------------------

pub open spec fn is_ws(b: u8) -> bool {
    b == 0x20 || b == 0x09 || b == 0x0A || b == 0x0D
}

/// XML whitespace: space, tab, line feed, carriage return.
pub fn xml_is_ws(b: u8) -> (r: bool)
    ensures
        r == is_ws(b),
{
    b == 0x20u8 || b == 0x09u8 || b == 0x0Au8 || b == 0x0Du8
}

pub open spec fn all_ws(s: Seq<u8>) -> bool {
    forall|i: int| 0 <= i < s.len() ==> is_ws(s[i])
}

/// Index of the first non-whitespace byte of `s`, or `s.len()`.
pub open spec fn first_non_ws(s: Seq<u8>, i: int) -> int
    decreases s.len() - i,
{
    if i >= s.len() || !is_ws(s[i]) {
        i
    } else {
        first_non_ws(s, i + 1)
    }
}

/// One past the last non-whitespace byte of `s` at or after `lo`, or `lo`.
pub open spec fn end_non_ws(s: Seq<u8>, lo: int, hi: int) -> int
    decreases hi - lo,
{
    if hi <= lo || !is_ws(s[hi - 1]) {
        hi
    } else {
        end_non_ws(s, lo, hi - 1)
    }
}

/// `s` without leading and trailing whitespace.
pub open spec fn trim(s: Seq<u8>) -> Seq<u8> {
    let a = first_non_ws(s, 0);
    s.subrange(a, end_non_ws(s, a, s.len() as int))
}

pub proof fn lemma_first_non_ws(s: Seq<u8>, i: int)
    requires
        0 <= i <= s.len(),
    ensures
        i <= first_non_ws(s, i) <= s.len(),
        forall|j: int| i <= j < first_non_ws(s, i) ==> is_ws(s[j]),
        first_non_ws(s, i) < s.len() ==> !is_ws(s[first_non_ws(s, i)]),
    decreases s.len() - i,
{
    if i < s.len() && is_ws(s[i]) {
        lemma_first_non_ws(s, i + 1);
    }
}

pub proof fn lemma_end_non_ws(s: Seq<u8>, lo: int, hi: int)
    requires
        0 <= lo <= hi <= s.len(),
    ensures
        lo <= end_non_ws(s, lo, hi) <= hi,
        forall|j: int| end_non_ws(s, lo, hi) <= j < hi ==> is_ws(s[j]),
        end_non_ws(s, lo, hi) > lo ==> !is_ws(s[end_non_ws(s, lo, hi) - 1]),
    decreases hi - lo,
{
    if hi > lo && is_ws(s[hi - 1]) {
        lemma_end_non_ws(s, lo, hi - 1);
    }
}

/// `trim(s)` is empty exactly when `s` is all whitespace.
pub proof fn lemma_trim_empty(s: Seq<u8>)
    ensures
        trim(s).len() == 0 <==> all_ws(s),
{
    lemma_first_non_ws(s, 0);
    let a = first_non_ws(s, 0);
    lemma_end_non_ws(s, a, s.len() as int);
    if a < s.len() {
        assert(!is_ws(s[a]));
        assert(end_non_ws(s, a, s.len() as int) > a);
    }
}

/// The bounds of `s` without leading and trailing whitespace.
pub fn xml_trim_bounds(s: &[u8]) -> (r: (usize, usize))
    ensures
        r.0 == first_non_ws(s@, 0),
        r.1 == end_non_ws(s@, r.0 as int, s@.len() as int),
        r.0 <= r.1 <= s@.len(),
{
    proof {
        lemma_first_non_ws(s@, 0);
    }
    let mut a: usize = 0;
    while a < s.len() && xml_is_ws(s[a])
        invariant
            a <= s@.len(),
            first_non_ws(s@, a as int) == first_non_ws(s@, 0),
        decreases s@.len() - a,
    {
        a = a + 1;
    }
    let mut z: usize = s.len();
    proof {
        lemma_end_non_ws(s@, a as int, s@.len() as int);
    }
    while z > a && xml_is_ws(s[z - 1])
        invariant
            a <= z <= s@.len(),
            end_non_ws(s@, a as int, z as int) == end_non_ws(s@, a as int, s@.len() as int),
        decreases z,
    {
        z = z - 1;
    }
    (a, z)
}

/// `s` without leading and trailing XML whitespace.
pub fn xml_trim(s: &[u8]) -> (r: Vec<u8>)
    ensures
        r@ == trim(s@),
{
    let (a, z) = xml_trim_bounds(s);
    let mut r: Vec<u8> = Vec::new();
    let mut i = a;
    while i < z
        invariant
            a <= i <= z <= s@.len(),
            r@ == s@.subrange(a as int, i as int),
        decreases z - i,
    {
        r.push(s[i]);
        i = i + 1;
        assert(r@ =~= s@.subrange(a as int, i as int));
    }
    r
}

/// First index at or after `i` holding `b`, or the end of `d`.
pub open spec fn scan_to(d: Seq<u8>, i: int, b: u8) -> int
    decreases d.len() - i,
{
    if i >= d.len() || d[i] == b {
        i
    } else {
        scan_to(d, i + 1, b)
    }
}

pub proof fn lemma_scan_to(d: Seq<u8>, i: int, b: u8)
    requires
        0 <= i <= d.len(),
    ensures
        i <= scan_to(d, i, b) <= d.len(),
        forall|j: int| i <= j < scan_to(d, i, b) ==> d[j] != b,
        scan_to(d, i, b) < d.len() ==> d[scan_to(d, i, b)] == b,
    decreases d.len() - i,
{
    if i < d.len() && d[i] != b {
        lemma_scan_to(d, i + 1, b);
    }
}

pub fn scan_to_exec(d: &[u8], i: usize, b: u8) -> (j: usize)
    requires
        i <= d@.len(),
    ensures
        j == scan_to(d@, i as int, b),
        i <= j <= d@.len(),
{
    proof {
        lemma_scan_to(d@, i as int, b);
    }
    let mut j = i;
    while j < d.len() && d[j] != b
        invariant
            i <= j <= d@.len(),
            scan_to(d@, j as int, b) == scan_to(d@, i as int, b),
        decreases d@.len() - j,
    {
        j = j + 1;
    }
    j
}

pub fn skip_ws_exec(d: &[u8], i: usize) -> (j: usize)
    requires
        i <= d@.len(),
    ensures
        j == first_non_ws(d@, i as int),
        i <= j <= d@.len(),
{
    proof {
        lemma_first_non_ws(d@, i as int);
    }
    let mut j = i;
    while j < d.len() && xml_is_ws(d[j])
        invariant
            i <= j <= d@.len(),
            first_non_ws(d@, j as int) == first_non_ws(d@, i as int),
        decreases d@.len() - j,
    {
        j = j + 1;
    }
    j
}

/// End of a tag name: the first whitespace, `>` or `/`.
pub open spec fn tag_name_end(d: Seq<u8>, i: int) -> int
    decreases d.len() - i,
{
    if i >= d.len() || is_ws(d[i]) || d[i] == 0x3E || d[i] == 0x2F {
        i
    } else {
        tag_name_end(d, i + 1)
    }
}

/// End of an attribute name: the first whitespace, `=`, `>` or `/`.
pub open spec fn attr_name_end(d: Seq<u8>, i: int) -> int
    decreases d.len() - i,
{
    if i >= d.len() || is_ws(d[i]) || d[i] == 0x3D || d[i] == 0x3E || d[i] == 0x2F {
        i
    } else {
        attr_name_end(d, i + 1)
    }
}

/// Position of the `?` of the first `?>` at or after `i`, or the last index.
pub open spec fn pi_end(d: Seq<u8>, i: int) -> int
    decreases d.len() - i,
{
    if i + 1 >= d.len() || (d[i] == 0x3F && d[i + 1] == 0x3E) {
        i
    } else {
        pi_end(d, i + 1)
    }
}

/// Position of the first `-->` at or after `i`.
pub open spec fn comment_end(d: Seq<u8>, i: int) -> int
    decreases d.len() - i,
{
    if i + 2 >= d.len() || (d[i] == 0x2D && d[i + 1] == 0x2D && d[i + 2] == 0x3E) {
        i
    } else {
        comment_end(d, i + 1)
    }
}

/// Position of the first `]]>` at or after `i`.
pub open spec fn cdata_end(d: Seq<u8>, i: int) -> int
    decreases d.len() - i,
{
    if i + 2 >= d.len() || (d[i] == 0x5D && d[i + 1] == 0x5D && d[i + 2] == 0x3E) {
        i
    } else {
        cdata_end(d, i + 1)
    }
}

pub fn tag_name_end_exec(d: &[u8], i: usize) -> (j: usize)
    requires
        i <= d@.len(),
    ensures
        j == tag_name_end(d@, i as int),
        i <= j <= d@.len(),
{
    let mut j = i;
    while j < d.len() && !xml_is_ws(d[j]) && d[j] != 0x3Eu8 && d[j] != 0x2Fu8
        invariant
            i <= j <= d@.len(),
            tag_name_end(d@, j as int) == tag_name_end(d@, i as int),
        decreases d@.len() - j,
    {
        j = j + 1;
    }
    j
}

pub fn attr_name_end_exec(d: &[u8], i: usize) -> (j: usize)
    requires
        i <= d@.len(),
    ensures
        j == attr_name_end(d@, i as int),
        i <= j <= d@.len(),
{
    let mut j = i;
    while j < d.len() && !xml_is_ws(d[j]) && d[j] != 0x3Du8 && d[j] != 0x3Eu8 && d[j] != 0x2Fu8
        invariant
            i <= j <= d@.len(),
            attr_name_end(d@, j as int) == attr_name_end(d@, i as int),
        decreases d@.len() - j,
    {
        j = j + 1;
    }
    j
}

pub fn pi_end_exec(d: &[u8], i: usize) -> (j: usize)
    requires
        i <= d@.len(),
    ensures
        j == pi_end(d@, i as int),
        i <= j <= d@.len(),
{
    let mut j = i;
    while j < d.len() && j + 1 < d.len() && !(d[j] == 0x3Fu8 && d[j + 1] == 0x3Eu8)
        invariant
            i <= j <= d@.len(),
            pi_end(d@, j as int) == pi_end(d@, i as int),
        decreases d@.len() - j,
    {
        j = j + 1;
    }
    j
}

pub fn comment_end_exec(d: &[u8], i: usize) -> (j: usize)
    requires
        i <= d@.len(),
    ensures
        j == comment_end(d@, i as int),
        i <= j <= d@.len(),
{
    let mut j = i;
    while j < d.len() && j + 1 < d.len() && j + 2 < d.len() && !(d[j] == 0x2Du8 && d[j + 1] == 0x2Du8 && d[j + 2] == 0x3Eu8)
        invariant
            i <= j <= d@.len(),
            comment_end(d@, j as int) == comment_end(d@, i as int),
        decreases d@.len() - j,
    {
        j = j + 1;
    }
    j
}

pub fn cdata_end_exec(d: &[u8], i: usize) -> (j: usize)
    requires
        i <= d@.len(),
    ensures
        j == cdata_end(d@, i as int),
        i <= j <= d@.len(),
{
    let mut j = i;
    while j < d.len() && j + 1 < d.len() && j + 2 < d.len() && !(d[j] == 0x5Du8 && d[j + 1] == 0x5Du8 && d[j + 2] == 0x3Eu8)
        invariant
            i <= j <= d@.len(),
            cdata_end(d@, j as int) == cdata_end(d@, i as int),
        decreases d@.len() - j,
    {
        j = j + 1;
    }
    j
}

/// `d` holds `lit` starting at `i`.
pub open spec fn matches_at(d: Seq<u8>, i: int, lit: Seq<u8>) -> bool {
    0 <= i && i + lit.len() <= d.len() && d.subrange(i, i + lit.len()) == lit
}

pub fn matches_at_exec(d: &[u8], i: usize, lit: &[u8]) -> (r: bool)
    requires
        i <= d@.len(),
    ensures
        r == matches_at(d@, i as int, lit@),
{
    if lit.len() > d.len() - i {
        return false;
    }
    let mut k: usize = 0;
    while k < lit.len()
        invariant
            k <= lit@.len(),
            i + lit@.len() <= d.len(),
            forall|j: int| 0 <= j < k ==> d@[i + j] == lit@[j],
        decreases lit@.len() - k,
    {
        if d[i + k] != lit[k] {
            proof {
                assert(d@.subrange(i as int, i + lit@.len())[k as int] != lit@[k as int]);
            }
            return false;
        }
        k = k + 1;
    }
    assert(d@.subrange(i as int, i + lit@.len()) =~= lit@);
    true
}

// ---------------------------------------------------------------------
// Entities
// ---------------------------------------------------------------------

pub open spec fn lit_amp() -> Seq<u8> {
    seq![0x61u8, 0x6D, 0x70]
}

pub open spec fn lit_lt() -> Seq<u8> {
    seq![0x6Cu8, 0x74]
}

pub open spec fn lit_gt() -> Seq<u8> {
    seq![0x67u8, 0x74]
}

pub open spec fn lit_apos() -> Seq<u8> {
    seq![0x61u8, 0x70, 0x6F, 0x73]
}

pub open spec fn lit_quot() -> Seq<u8> {
    seq![0x71u8, 0x75, 0x6F, 0x74]
}

/// The replacement of a predefined named entity.
pub open spec fn named_entity(ent: Seq<u8>) -> Option<Seq<u8>> {
    if ent == lit_amp() {
        Some(seq![0x26u8])
    } else if ent == lit_lt() {
        Some(seq![0x3Cu8])
    } else if ent == lit_gt() {
        Some(seq![0x3Eu8])
    } else if ent == lit_apos() {
        Some(seq![0x27u8])
    } else if ent == lit_quot() {
        Some(seq![0x22u8])
    } else {
        None
    }
}

/// Value of a digit in the given radix (10 or 16).
pub open spec fn digit_value(b: u8, radix: int) -> Option<int> {
    if 0x30 <= b <= 0x39 {
        Some(b - 0x30)
    } else if radix == 16 && 0x61 <= b <= 0x66 {
        Some(b - 0x61 + 10)
    } else if radix == 16 && 0x41 <= b <= 0x46 {
        Some(b - 0x41 + 10)
    } else {
        None
    }
}

pub open spec fn all_digits(s: Seq<u8>, radix: int) -> bool {
    forall|i: int| 0 <= i < s.len() ==> digit_value(s[i], radix) is Some
}

/// The number that a string of digits denotes.
pub open spec fn digits_number(s: Seq<u8>, radix: int) -> int
    decreases s.len(),
{
    if s.len() == 0 {
        0
    } else {
        digits_number(s.drop_last(), radix) * radix + digit_value(s.last(), radix)->0
    }
}

/// An unsigned 32-bit integer in the given radix, as `u32::from_str_radix`
/// reads it: an optional `+`, then at least one digit, and no overflow.
pub open spec fn parse_u32(s: Seq<u8>, radix: int) -> Option<u32> {
    let digits = if s.len() > 0 && s[0] == 0x2B {
        s.drop_first()
    } else {
        s
    };
    if digits.len() > 0 && all_digits(digits, radix) && digits_number(digits, radix)
        <= u32::MAX {
        Some(digits_number(digits, radix) as u32)
    } else {
        None
    }
}

/// The code point of a numeric character reference (`#65`, `#x41`).
pub open spec fn numeric_entity(ent: Seq<u8>) -> Option<u32> {
    if ent.len() >= 1 && ent[0] == 0x23 {
        let digits = ent.drop_first();
        if digits.len() >= 1 && (digits[0] == 0x78 || digits[0] == 0x58) {
            parse_u32(digits.drop_first(), 16)
        } else {
            parse_u32(digits, 10)
        }
    } else {
        None
    }
}

/// First index at or after `from` where `s` holds `b`.
pub open spec fn find_byte(s: Seq<u8>, from: int, b: u8) -> Option<int>
    decreases s.len() - from,
{
    if from >= s.len() {
        None
    } else if s[from] == b {
        Some(from)
    } else {
        find_byte(s, from + 1, b)
    }
}

/// What an entity reference at the front of `rest` (just after a `&`)
/// decodes to, and how many bytes of `rest` it takes; `None` when the `&`
/// stands for itself.
pub open spec fn entity_at(rest: Seq<u8>) -> Option<(Seq<u8>, int)> {
    match find_byte(rest, 0, 0x3B) {
        Some(semi) => {
            let ent = rest.subrange(0, semi);
            match named_entity(ent) {
                Some(r) => Some((r, semi + 1)),
                None => match numeric_entity(ent) {
                    Some(cp) => if is_scalar(cp) {
                        Some((encode_scalar(cp), semi + 1))
                    } else {
                        None
                    },
                    None => None,
                },
            }
        },
        None => None,
    }
}

/// Decodes the predefined entities and numeric character references of an
/// XML text; an `&` that starts no valid reference is kept as it is.
pub open spec fn decode_entities(s: Seq<u8>) -> Seq<u8>
    decreases s.len(),
{
    if s.len() == 0 {
        seq![]
    } else if s[0] != 0x26 {
        seq![s[0]] + decode_entities(s.drop_first())
    } else {
        match entity_at(s.drop_first()) {
            Some((r, n)) => if 0 < n && n <= s.len() - 1 {
                r + decode_entities(s.subrange(1 + n, s.len() as int))
            } else {
                seq![0x26u8]
            },
            None => seq![0x26u8] + decode_entities(s.drop_first()),
        }
    }
}

pub proof fn lemma_find_byte(s: Seq<u8>, from: int, b: u8)
    requires
        0 <= from,
    ensures
        find_byte(s, from, b) matches Some(k) ==> from <= k < s.len() && s[k] == b && forall|
            j: int,
        |
            from <= j < k ==> s[j] != b,
        find_byte(s, from, b) is None ==> forall|j: int| from <= j < s.len() ==> s[j] != b,
    decreases s.len() - from,
{
    if from < s.len() && s[from] != b {
        lemma_find_byte(s, from + 1, b);
    }
}

pub proof fn lemma_digits_number_mono(s: Seq<u8>, k: int, radix: int)
    requires
        0 <= k <= s.len(),
        radix >= 1,
        all_digits(s, radix),
    ensures
        0 <= digits_number(s.subrange(0, k), radix) <= digits_number(s, radix),
    decreases s.len(),
{
    if s.len() > 0 {
        let p = s.drop_last();
        assert(all_digits(p, radix));
        if k == s.len() {
            assert(s.subrange(0, k) =~= s);
            lemma_digits_number_mono(p, p.len() as int, radix);
            assert(p.subrange(0, p.len() as int) =~= p);
        } else {
            lemma_digits_number_mono(p, k, radix);
            assert(p.subrange(0, k) =~= s.subrange(0, k));
            lemma_digits_number_mono(p, p.len() as int, radix);
            assert(p.subrange(0, p.len() as int) =~= p);
        }
        let d = digit_value(s.last(), radix)->0;
        assert(digits_number(p, radix) * radix >= digits_number(p, radix)) by (nonlinear_arith)
            requires
                digits_number(p, radix) >= 0,
                radix >= 1,
        ;
    }
}

/// Reads a digit.
pub fn digit_value_exec(b: u8, radix: u32) -> (r: Option<u32>)
    requires
        radix == 10 || radix == 16,
    ensures
        match r {
            Some(v) => digit_value(b, radix as int) == Some(v as int),
            None => digit_value(b, radix as int) is None,
        },
        r matches Some(v) ==> v < radix,
{
    if 0x30u8 <= b && b <= 0x39u8 {
        Some((b - 0x30u8) as u32)
    } else if radix == 16 && 0x61u8 <= b && b <= 0x66u8 {
        Some((b - 0x61u8) as u32 + 10)
    } else if radix == 16 && 0x41u8 <= b && b <= 0x46u8 {
        Some((b - 0x41u8) as u32 + 10)
    } else {
        None
    }
}

proof fn reveal_parse_u32_none(s: Seq<u8>, radix: int, digits: Seq<u8>)
    requires
        digits == (if s.len() > 0 && s[0] == 0x2B {
            s.drop_first()
        } else {
            s
        }),
        !(digits.len() > 0 && all_digits(digits, radix) && digits_number(digits, radix)
            <= u32::MAX),
    ensures
        parse_u32(s, radix) is None,
{
}

/// `u32::from_str_radix` on a byte string.
pub fn parse_u32_exec(s: &[u8], radix: u32) -> (r: Option<u32>)
    requires
        radix == 10 || radix == 16,
    ensures
        r == parse_u32(s@, radix as int),
{
    let start: usize = if s.len() > 0 && s[0] == 0x2Bu8 {
        1
    } else {
        0
    };
    let ghost digits = if s@.len() > 0 && s@[0] == 0x2B {
        s@.drop_first()
    } else {
        s@
    };
    assert(digits =~= s@.subrange(start as int, s@.len() as int));
    if start >= s.len() {
        return None;
    }
    let mut acc: u64 = 0;
    let mut i = start;
    while i < s.len()
        invariant
            start <= i <= s@.len(),
            digits == s@.subrange(start as int, s@.len() as int),
            digits == (if s@.len() > 0 && s@[0] == 0x2B {
                s@.drop_first()
            } else {
                s@
            }),
            all_digits(digits.subrange(0, i - start), radix as int),
            acc == digits_number(digits.subrange(0, i - start), radix as int),
            acc <= u32::MAX,
            radix == 10 || radix == 16,
        decreases s@.len() - i,
    {
        let d = digit_value_exec(s[i], radix);
        match d {
            None => {
                proof {
                    assert(digits[i - start] == s@[i as int]);
                    assert(digit_value(digits[i - start], radix as int) is None);
                    assert(!all_digits(digits, radix as int));
                    reveal_parse_u32_none(s@, radix as int, digits);
                }
                return None;
            },
            Some(v) => {
                let ghost prefix = digits.subrange(0, i + 1 - start);
                proof {
                    assert(prefix.drop_last() =~= digits.subrange(0, i - start));
                    assert(prefix.last() == s@[i as int]);
                    assert(all_digits(prefix, radix as int));
                }
                assert(acc * (radix as u64) <= 0xFFFF_FFFFu64 * 16) by (nonlinear_arith)
                    requires
                        acc <= 0xFFFF_FFFFu64,
                        radix <= 16,
                ;
                let next = acc * (radix as u64) + (v as u64);
                assert(digits_number(prefix, radix as int) == next);
                if next > 0xFFFF_FFFFu64 {
                    proof {
                        if all_digits(digits, radix as int) {
                            lemma_digits_number_mono(digits, i + 1 - start, radix as int);
                        }
                        reveal_parse_u32_none(s@, radix as int, digits);
                    }
                    return None;
                }
                acc = next;
                i = i + 1;
            },
        }
    }
    assert(digits.subrange(0, s@.len() - start) =~= digits);
    Some(acc as u32)
}

/// Decodes the entity reference just after an `&` at position `amp` of `s`:
/// its replacement bytes and the index just past its `;`.
pub fn entity_at_exec(s: &[u8], amp: usize) -> (r: Option<(Vec<u8>, usize)>)
    requires
        amp < s@.len(),
    ensures
        match r {
            Some((bytes, next)) => entity_at(s@.skip(amp + 1)) == Some((bytes@, next - amp - 1))
                && amp + 1 < next <= s@.len(),
            None => entity_at(s@.skip(amp + 1)) is None,
        },
{
    let ghost rest = s@.skip(amp + 1);
    assert(amp < s.len());
    let semi_abs = scan_to_exec(s, amp + 1, 0x3Bu8);
    proof {
        lemma_scan_to(s@, amp + 1, 0x3B);
        lemma_find_byte(rest, 0, 0x3B);
    }
    if semi_abs >= s.len() {
        proof {
            if find_byte(rest, 0, 0x3B) is Some {
                let k = find_byte(rest, 0, 0x3B)->0;
                assert(s@[amp + 1 + k] == 0x3B);
            }
        }
        return None;
    }
    let ghost semi = semi_abs - amp - 1;
    proof {
        assert(rest[semi] == 0x3B);
        if find_byte(rest, 0, 0x3B) != Some(semi) {
            let k = find_byte(rest, 0, 0x3B)->0;
            if k < semi {
                assert(s@[amp + 1 + k] != 0x3B);
            }
        }
    }
    let ent = crate::frameworks::xml_parser::slice_copy(s, amp + 1, semi_abs);
    assert(ent@ =~= rest.subrange(0, semi));
    let n = ent.len();
    // named entities
    if n == 3 && ent[0] == 0x61u8 && ent[1] == 0x6Du8 && ent[2] == 0x70u8 {
        assert(ent@ =~= lit_amp());
        let mut v: Vec<u8> = Vec::new();
        v.push(0x26u8);
        assert(v@ =~= seq![0x26u8]);
        return Some((v, semi_abs + 1));
    }
    if n == 2 && ent[0] == 0x6Cu8 && ent[1] == 0x74u8 {
        assert(ent@ =~= lit_lt());
        let mut v: Vec<u8> = Vec::new();
        v.push(0x3Cu8);
        assert(v@ =~= seq![0x3Cu8]);
        return Some((v, semi_abs + 1));
    }
    if n == 2 && ent[0] == 0x67u8 && ent[1] == 0x74u8 {
        assert(ent@ =~= lit_gt());
        let mut v: Vec<u8> = Vec::new();
        v.push(0x3Eu8);
        assert(v@ =~= seq![0x3Eu8]);
        return Some((v, semi_abs + 1));
    }
    if n == 4 && ent[0] == 0x61u8 && ent[1] == 0x70u8 && ent[2] == 0x6Fu8 && ent[3] == 0x73u8 {
        assert(ent@ =~= lit_apos());
        let mut v: Vec<u8> = Vec::new();
        v.push(0x27u8);
        assert(v@ =~= seq![0x27u8]);
        return Some((v, semi_abs + 1));
    }
    if n == 4 && ent[0] == 0x71u8 && ent[1] == 0x75u8 && ent[2] == 0x6Fu8 && ent[3] == 0x74u8 {
        assert(ent@ =~= lit_quot());
        let mut v: Vec<u8> = Vec::new();
        v.push(0x22u8);
        assert(v@ =~= seq![0x22u8]);
        return Some((v, semi_abs + 1));
    }
    proof {
        assert(ent@ != lit_amp() ==> true);
        if ent@ == lit_amp() {
            assert(ent@[0] == 0x61 && ent@[1] == 0x6D && ent@[2] == 0x70);
        }
        if ent@ == lit_lt() {
            assert(ent@[0] == 0x6C && ent@[1] == 0x74);
        }
        if ent@ == lit_gt() {
            assert(ent@[0] == 0x67 && ent@[1] == 0x74);
        }
        if ent@ == lit_apos() {
            assert(ent@[0] == 0x61 && ent@[1] == 0x70 && ent@[2] == 0x6F && ent@[3] == 0x73);
        }
        if ent@ == lit_quot() {
            assert(ent@[0] == 0x71 && ent@[1] == 0x75 && ent@[2] == 0x6F && ent@[3] == 0x74);
        }
        assert(named_entity(ent@) is None);
    }
    if n >= 1 && ent[0] == 0x23u8 {
        let cp = if n >= 2 && (ent[1] == 0x78u8 || ent[1] == 0x58u8) {
            let hex = slice_copy(&ent, 2, n);
            assert(hex@ =~= ent@.drop_first().drop_first());
            parse_u32_exec(&hex, 16)
        } else {
            let dec = slice_copy(&ent, 1, n);
            assert(dec@ =~= ent@.drop_first());
            parse_u32_exec(&dec, 10)
        };
        match cp {
            Some(v) => {
                if v <= 0x10FFFF && !(0xD800 <= v && v <= 0xDFFF) {
                    let bytes = utf8_encode_scalar(v);
                    return Some((bytes, semi_abs + 1));
                } else {
                    return None;
                }
            },
            None => {
                return None;
            },
        }
    }
    None
}

/// Copies `s[from..to]`.
pub fn slice_copy(s: &[u8], from: usize, to: usize) -> (r: Vec<u8>)
    requires
        from <= to <= s@.len(),
    ensures
        r@ == s@.subrange(from as int, to as int),
{
    let mut r: Vec<u8> = Vec::new();
    let mut i = from;
    while i < to
        invariant
            from <= i <= to <= s@.len(),
            r@ == s@.subrange(from as int, i as int),
        decreases to - i,
    {
        r.push(s[i]);
        i = i + 1;
        assert(r@ =~= s@.subrange(from as int, i as int));
    }
    r
}

/// Appends `src` to `dst`.
pub fn append_bytes(dst: &mut Vec<u8>, src: &[u8])
    ensures
        final(dst)@ == old(dst)@ + src@,
{
    let mut i: usize = 0;
    while i < src.len()
        invariant
            i <= src@.len(),
            dst@ == old(dst)@ + src@.subrange(0, i as int),
        decreases src@.len() - i,
    {
        dst.push(src[i]);
        i = i + 1;
        assert(dst@ =~= old(dst)@ + src@.subrange(0, i as int));
    }
    assert(src@.subrange(0, src@.len() as int) =~= src@);
}

/// Decodes the predefined entities (`&amp;` `&lt;` `&gt;` `&apos;`
/// `&quot;`) and numeric character references of an XML text.
pub fn xml_decode_entities(s: &[u8]) -> (out: Vec<u8>)
    ensures
        out@ == decode_entities(s@),
{
    let mut out: Vec<u8> = Vec::new();
    let mut i: usize = 0;
    assert(s@.skip(0) =~= s@);
    while i < s.len()
        invariant
            i <= s@.len(),
            out@ + decode_entities(s@.skip(i as int)) == decode_entities(s@),
        decreases s@.len() - i,
    {
        let ghost rest = s@.skip(i as int);
        if s[i] != 0x26u8 {
            proof {
                assert(rest.drop_first() =~= s@.skip(i + 1));
                assert(out@.push(s@[i as int]) + decode_entities(s@.skip(i + 1)) =~= out@ + (seq![
                    s@[i as int],
                ] + decode_entities(s@.skip(i + 1))));
            }
            out.push(s[i]);
            i = i + 1;
            continue;
        }
        match entity_at_exec(s, i) {
            Some((bytes, next)) => {
                proof {
                    assert(s@.skip(i + 1) =~= rest.drop_first());
                    assert(rest.subrange(1 + (next - i - 1), rest.len() as int) =~= s@.skip(
                        next as int,
                    ));
                }
                let ghost before = out@;
                append_bytes(&mut out, &bytes);
                proof {
                    assert(before + (bytes@ + decode_entities(s@.skip(next as int))) =~= out@
                        + decode_entities(s@.skip(next as int)));
                }
                i = next;
            },
            None => {
                proof {
                    assert(s@.skip(i + 1) =~= rest.drop_first());
                    assert(out@.push(0x26u8) + decode_entities(s@.skip(i + 1)) =~= out@ + (seq![
                        0x26u8,
                    ] + decode_entities(s@.skip(i + 1))));
                }
                out.push(0x26u8);
                i = i + 1;
            },
        }
    }
    proof {
        assert(s@.skip(i as int) =~= Seq::<u8>::empty());
        assert(out@ + Seq::<u8>::empty() =~= out@);
    }
    out
}

// ---------------------------------------------------------------------
// Attributes and events
// ---------------------------------------------------------------------

pub open spec fn clamp_to(x: int, n: int) -> int {
    if x > n {
        n
    } else {
        x
    }
}

/// The attributes of a start tag whose name ends at `i`, and the position
/// where they end (at `>`, `/>` or the end of input). A stray `/` (not
/// followed by `>`) is skipped; an `=` with nothing after it gives the
/// attribute an empty value and ends the input. `None` only for a
/// position outside the input.
pub open spec fn attrs_from(d: Seq<u8>, i: int) -> Option<(Seq<(Seq<u8>, Seq<u8>)>, int)>
    decreases d.len() - i,
{
    if i < 0 || i > d.len() {
        None
    } else {
        let k = first_non_ws(d, i);
        proof {
            lemma_first_non_ws(d, i);
        }
        if k >= d.len() || d[k] == 0x3E || (d[k] == 0x2F && k + 1 < d.len() && d[k + 1]
            == 0x3E) {
            Some((seq![], k))
        } else {
            let e = attr_name_end(d, k);
            proof {
                lemma_attr_name_end(d, k);
            }
            let name = d.subrange(k, e);
            let k2 = first_non_ws(d, e);
            proof {
                lemma_first_non_ws(d, e);
            }
            if k2 >= d.len() || d[k2] != 0x3D {
                if name.len() == 0 {
                    attrs_from(d, k + 1)
                } else {
                    match attrs_from(d, k2) {
                        Some((rest, end)) => Some(
                            (
                                if name.len() > 0 {
                                    seq![(name, Seq::<u8>::empty())] + rest
                                } else {
                                    rest
                                },
                                end,
                            ),
                        ),
                        None => None,
                    }
                }
            } else {
                let k3 = first_non_ws(d, k2 + 1);
                proof {
                    lemma_first_non_ws(d, k2 + 1);
                }
                if k3 >= d.len() {
                    Some((seq![(name, Seq::<u8>::empty())], d.len() as int))
                } else if d[k3] == 0x22 || d[k3] == 0x27 {
                    let ve = scan_to(d, k3 + 1, d[k3]);
                    proof {
                        lemma_scan_to(d, k3 + 1, d[k3]);
                    }
                    let value = decode_entities(d.subrange(k3 + 1, ve));
                    let next = if ve < d.len() {
                        ve + 1
                    } else {
                        ve
                    };
                    match attrs_from(d, next) {
                        Some((rest, end)) => Some((seq![(name, value)] + rest, end)),
                        None => None,
                    }
                } else {
                    attrs_from(d, k3)
                }
            }
        }
    }
}

pub proof fn lemma_attr_name_end(d: Seq<u8>, i: int)
    requires
        0 <= i <= d.len(),
    ensures
        i <= attr_name_end(d, i) <= d.len(),
    decreases d.len() - i,
{
    if !(i >= d.len() || is_ws(d[i]) || d[i] == 0x3D || d[i] == 0x3E || d[i] == 0x2F) {
        lemma_attr_name_end(d, i + 1);
    }
}

pub proof fn lemma_tag_name_end(d: Seq<u8>, i: int)
    requires
        0 <= i <= d.len(),
    ensures
        i <= tag_name_end(d, i) <= d.len(),
    decreases d.len() - i,
{
    if !(i >= d.len() || is_ws(d[i]) || d[i] == 0x3E || d[i] == 0x2F) {
        lemma_tag_name_end(d, i + 1);
    }
}

pub proof fn lemma_pi_end(d: Seq<u8>, i: int)
    requires
        0 <= i <= d.len(),
    ensures
        i <= pi_end(d, i) <= d.len(),
    decreases d.len() - i,
{
    if !(i + 1 >= d.len() || (d[i] == 0x3F && d[i + 1] == 0x3E)) {
        lemma_pi_end(d, i + 1);
    }
}

pub proof fn lemma_comment_end(d: Seq<u8>, i: int)
    requires
        0 <= i <= d.len(),
    ensures
        i <= comment_end(d, i) <= d.len(),
    decreases d.len() - i,
{
    if !(i + 2 >= d.len() || (d[i] == 0x2D && d[i + 1] == 0x2D && d[i + 2] == 0x3E)) {
        lemma_comment_end(d, i + 1);
    }
}

pub proof fn lemma_cdata_end(d: Seq<u8>, i: int)
    requires
        0 <= i <= d.len(),
    ensures
        i <= cdata_end(d, i) <= d.len(),
    decreases d.len() - i,
{
    if !(i + 2 >= d.len() || (d[i] == 0x5D && d[i + 1] == 0x5D && d[i + 2] == 0x3E)) {
        lemma_cdata_end(d, i + 1);
    }
}

/// Where the attributes end lies between their start and the end of input.
pub proof fn lemma_attrs_from_bounds(d: Seq<u8>, i: int)
    requires
        0 <= i <= d.len(),
    ensures
        attrs_from(d, i) matches Some((_, end)) ==> i <= end <= d.len(),
    decreases d.len() - i,
{
    lemma_first_non_ws(d, i);
    let k = first_non_ws(d, i);
    if k >= d.len() || d[k] == 0x3E || (d[k] == 0x2F && k + 1 < d.len() && d[k + 1] == 0x3E) {
    } else {
        lemma_attr_name_end(d, k);
        let e = attr_name_end(d, k);
        lemma_first_non_ws(d, e);
        let k2 = first_non_ws(d, e);
        if k2 >= d.len() || d[k2] != 0x3D {
            if e == k {
                lemma_attrs_from_bounds(d, k + 1);
            } else {
                lemma_attrs_from_bounds(d, k2);
            }
        } else {
            lemma_first_non_ws(d, k2 + 1);
            let k3 = first_non_ws(d, k2 + 1);
            if k3 < d.len() {
                if d[k3] == 0x22 || d[k3] == 0x27 {
                    lemma_scan_to(d, k3 + 1, d[k3]);
                    let ve = scan_to(d, k3 + 1, d[k3]);
                    let next = if ve < d.len() {
                        ve + 1
                    } else {
                        ve
                    };
                    lemma_attrs_from_bounds(d, next);
                } else {
                    lemma_attrs_from_bounds(d, k3);
                }
            }
        }
    }
}

pub open spec fn lit_comment_open() -> Seq<u8> {
    seq![0x21u8, 0x2D, 0x2D]
}

pub open spec fn lit_doctype_upper() -> Seq<u8> {
    seq![0x21u8, 0x44, 0x4F, 0x43, 0x54, 0x59, 0x50, 0x45]
}

pub open spec fn lit_doctype_lower() -> Seq<u8> {
    seq![0x21u8, 0x64, 0x6F, 0x63, 0x74, 0x79, 0x70, 0x65]
}

pub open spec fn lit_cdata_open() -> Seq<u8> {
    seq![0x21u8, 0x5B, 0x43, 0x44, 0x41, 0x54, 0x41, 0x5B]
}

/// The events of `d` from position `i`, with `depth` the number of open
/// elements there; `None` where the parser would not return.
pub open spec fn parse_from(d: Seq<u8>, i: int, depth: int) -> Option<Seq<SpecEvent>>
    decreases d.len() - i,
{
    if i < 0 || i >= d.len() {
        Some(seq![])
    } else if d[i] != 0x3C {
        let j = scan_to(d, i, 0x3C);
        proof {
            lemma_scan_to(d, i, 0x3C);
        }
        let text = decode_entities(d.subrange(i, j));
        let here = if all_ws(text) {
            Seq::<SpecEvent>::empty()
        } else {
            seq![SpecEvent::Text { value: text, depth }]
        };
        match parse_from(d, j, depth) {
            Some(rest) => Some(here + rest),
            None => None,
        }
    } else {
        let k = i + 1;
        if k >= d.len() {
            Some(seq![])
        } else if d[k] == 0x3F {
            proof {
                lemma_pi_end(d, k);
            }
            parse_from(d, clamp_to(pi_end(d, k) + 2, d.len() as int), depth)
        } else if matches_at(d, k, lit_comment_open()) {
            proof {
                lemma_comment_end(d, k + 3);
            }
            parse_from(d, clamp_to(comment_end(d, k + 3) + 3, d.len() as int), depth)
        } else if matches_at(d, k, lit_doctype_upper()) || matches_at(d, k, lit_doctype_lower()) {
            let j = scan_to(d, k, 0x3E);
            proof {
                lemma_scan_to(d, k, 0x3E);
            }
            parse_from(
                d,
                if j < d.len() {
                    j + 1
                } else {
                    j
                },
                depth,
            )
        } else if matches_at(d, k, lit_cdata_open()) {
            let s = k + 8;
            let j = cdata_end(d, s);
            proof {
                lemma_cdata_end(d, s);
            }
            let cdata = d.subrange(s, j);
            let here = if all_ws(cdata) {
                Seq::<SpecEvent>::empty()
            } else {
                seq![SpecEvent::Text { value: cdata, depth }]
            };
            match parse_from(d, clamp_to(j + 3, d.len() as int), depth) {
                Some(rest) => Some(here + rest),
                None => None,
            }
        } else if d[k] == 0x2F {
            let s = k + 1;
            let j = scan_to(d, s, 0x3E);
            proof {
                lemma_scan_to(d, s, 0x3E);
            }
            let name = trim(d.subrange(s, j));
            let next = if j < d.len() {
                j + 1
            } else {
                j
            };
            match parse_from(d, next, depth - 1) {
                Some(rest) => Some(seq![SpecEvent::End { name, depth: depth - 1 }] + rest),
                None => None,
            }
        } else {
            let te = tag_name_end(d, k);
            proof {
                lemma_tag_name_end(d, k);
                lemma_attrs_from_bounds(d, te);
            }
            let tag = d.subrange(k, te);
            match attrs_from(d, te) {
                None => None,
                Some((attrs, p)) => {
                    let sc = p < d.len() && d[p] == 0x2F;
                    let p2 = if sc {
                        p + 1
                    } else {
                        p
                    };
                    let p3 = if p2 < d.len() && d[p2] == 0x3E {
                        p2 + 1
                    } else {
                        p2
                    };
                    let here = if sc {
                        seq![
                            SpecEvent::Start { name: tag, attrs, depth, is_empty: true },
                            SpecEvent::End { name: tag, depth },
                        ]
                    } else {
                        seq![SpecEvent::Start { name: tag, attrs, depth, is_empty: false }]
                    };
                    match parse_from(
                        d,
                        p3,
                        if sc {
                            depth
                        } else {
                            depth + 1
                        },
                    ) {
                        Some(rest) => Some(here + rest),
                        None => None,
                    }
                },
            }
        }
    }
}

/// Prepends `prefix` to a parse outcome.
pub open spec fn prepend_events(prefix: Seq<SpecEvent>, r: Option<Seq<SpecEvent>>) -> Option<
    Seq<SpecEvent>,
> {
    match r {
        Some(rest) => Some(prefix + rest),
        None => None,
    }
}

pub open spec fn prepend_attrs(
    prefix: Seq<(Seq<u8>, Seq<u8>)>,
    r: Option<(Seq<(Seq<u8>, Seq<u8>)>, int)>,
) -> Option<(Seq<(Seq<u8>, Seq<u8>)>, int)> {
    match r {
        Some((rest, end)) => Some((prefix + rest, end)),
        None => None,
    }
}

/// Parses the attributes of a start tag whose name ends at `i`.
pub fn parse_attrs(d: &[u8], i: usize) -> (r: Option<(Vec<XmlAttr>, usize)>)
    requires
        i <= d@.len(),
    ensures
        match r {
            Some((a, p)) => attrs_from(d@, i as int) == Some((attrs_view(a@), p as int)),
            None => attrs_from(d@, i as int) is None,
        },
{
    let mut acc: Vec<XmlAttr> = Vec::new();
    let mut pos = i;
    assert(attrs_view(acc@) =~= Seq::<(Seq<u8>, Seq<u8>)>::empty());
    proof {
        match attrs_from(d@, i as int) {
            Some((rest, end)) => {
                assert(attrs_view(acc@) + rest =~= rest);
            },
            None => {},
        }
    }
    loop
        invariant
            i <= pos <= d.len(),
            attrs_from(d@, i as int) == prepend_attrs(attrs_view(acc@), attrs_from(d@, pos as int)),
        decreases d@.len() - pos,
    {
        let ghost old_acc = attrs_view(acc@);
        let k = skip_ws_exec(d, pos);
        if k >= d.len() || d[k] == 0x3Eu8 || (d[k] == 0x2Fu8 && k + 1 < d.len() && d[k + 1]
            == 0x3Eu8) {
            proof {
                assert(attrs_view(acc@) + Seq::<(Seq<u8>, Seq<u8>)>::empty() =~= attrs_view(acc@));
            }
            return Some((acc, k));
        }
        let e = attr_name_end_exec(d, k);
        let name = slice_copy(d, k, e);
        let k2 = skip_ws_exec(d, e);
        if k2 >= d.len() || d[k2] != 0x3Du8 {
            if name.len() == 0 {
                pos = k + 1;
                continue;
            }
            if name.len() > 0 {
                acc.push(XmlAttr { name, value: Vec::new() });
                proof {
                    let item = (d@.subrange(k as int, e as int), Seq::<u8>::empty());
                    assert(attrs_view(acc@) =~= old_acc.push(item));
                    match attrs_from(d@, k2 as int) {
                        Some((rest, end)) => {
                            assert(old_acc + (seq![item] + rest) =~= attrs_view(acc@) + rest);
                        },
                        None => {},
                    }
                }
            } else {
                proof {
                    assert(attrs_view(acc@) == old_acc);
                }
            }
            pos = k2;
            continue;
        }
        let k3 = skip_ws_exec(d, k2 + 1);
        if k3 >= d.len() {
            acc.push(XmlAttr { name, value: Vec::new() });
            proof {
                assert(attrs_view(acc@) =~= old_acc + seq![(d@.subrange(k as int, e as int), Seq::<u8>::empty())]);
            }
            return Some((acc, d.len()));
        }
        let q = d[k3];
        if q == 0x22u8 || q == 0x27u8 {
            let ve = scan_to_exec(d, k3 + 1, q);
            let raw = slice_copy(d, k3 + 1, ve);
            let value = xml_decode_entities(&raw);
            let next = if ve < d.len() {
                ve + 1
            } else {
                ve
            };
            let ghost item = (name@, value@);
            acc.push(XmlAttr { name, value });
            proof {
                assert(attrs_view(acc@) =~= old_acc.push(item));
                match attrs_from(d@, next as int) {
                    Some((rest, end)) => {
                        assert(old_acc + (seq![item] + rest) =~= attrs_view(acc@) + rest);
                    },
                    None => {},
                }
            }
            pos = next;
        } else {
            pos = k3;
        }
    }
}

pub fn lit_exec_comment_open() -> (v: Vec<u8>)
    ensures
        v@ == lit_comment_open(),
{
    let mut v: Vec<u8> = Vec::new();
    v.push(0x21u8);
    v.push(0x2Du8);
    v.push(0x2Du8);
    assert(v@ =~= lit_comment_open());
    v
}

pub fn lit_exec_doctype_upper() -> (v: Vec<u8>)
    ensures
        v@ == lit_doctype_upper(),
{
    let mut v: Vec<u8> = Vec::new();
    v.push(0x21u8);
    v.push(0x44u8);
    v.push(0x4Fu8);
    v.push(0x43u8);
    v.push(0x54u8);
    v.push(0x59u8);
    v.push(0x50u8);
    v.push(0x45u8);
    assert(v@ =~= lit_doctype_upper());
    v
}

pub fn lit_exec_doctype_lower() -> (v: Vec<u8>)
    ensures
        v@ == lit_doctype_lower(),
{
    let mut v: Vec<u8> = Vec::new();
    v.push(0x21u8);
    v.push(0x64u8);
    v.push(0x6Fu8);
    v.push(0x63u8);
    v.push(0x74u8);
    v.push(0x79u8);
    v.push(0x70u8);
    v.push(0x65u8);
    assert(v@ =~= lit_doctype_lower());
    v
}

pub fn lit_exec_cdata_open() -> (v: Vec<u8>)
    ensures
        v@ == lit_cdata_open(),
{
    let mut v: Vec<u8> = Vec::new();
    v.push(0x21u8);
    v.push(0x5Bu8);
    v.push(0x43u8);
    v.push(0x44u8);
    v.push(0x41u8);
    v.push(0x54u8);
    v.push(0x41u8);
    v.push(0x5Bu8);
    assert(v@ =~= lit_cdata_open());
    v
}

/// `s` holds some byte that is not whitespace.
pub fn has_non_ws(s: &[u8]) -> (r: bool)
    ensures
        r == !all_ws(s@),
{
    let (a, z) = xml_trim_bounds(s);
    proof {
        lemma_trim_empty(s@);
    }
    a < z
}

/// One step of the parser: the events of the item at `i` and where the
/// parse goes on.
pub open spec fn step_ok(
    d: Seq<u8>,
    i: int,
    depth: int,
    evs: Seq<SpecEvent>,
    next: int,
    next_depth: int,
) -> bool {
    &&& i < next <= d.len()
    &&& -next <= next_depth <= next
    &&& parse_from(d, i, depth) == prepend_events(evs, parse_from(d, next, next_depth))
}

/// A run of text up to the next `<`.
fn parse_text(data: &[u8], i: usize, depth: i32) -> (r: (Vec<ReaderEvent>, usize))
    requires
        i < data@.len(),
        data@[i as int] != 0x3C,
        -(i as int) <= depth <= i,
    ensures
        step_ok(data@, i as int, depth as int, events_view(r.0@), r.1 as int, depth as int),
{
    let ghost d = data@;
    let j = scan_to_exec(data, i, 0x3Cu8);
    proof {
        lemma_scan_to(d, i as int, 0x3C);
    }
    let raw = slice_copy(data, i, j);
    let text = xml_decode_entities(&raw);
    let ghost here = if all_ws(text@) {
        Seq::<SpecEvent>::empty()
    } else {
        seq![SpecEvent::Text { value: text@, depth: depth as int }]
    };
    assert(parse_from(d, i as int, depth as int) == prepend_events(
        here,
        parse_from(d, j as int, depth as int),
    ));
    let mut out: Vec<ReaderEvent> = Vec::new();
    if has_non_ws(&text) {
        let ghost ev = SpecEvent::Text { value: text@, depth: depth as int };
        out.push(ReaderEvent::Text { value: text, depth });
        proof {
            assert(events_view(out@) =~= seq![ev]);
        }
    } else {
        proof {
            assert(events_view(out@) =~= Seq::<SpecEvent>::empty());
        }
    }
    (out, j)
}

/// A CDATA section starting with the `!` at `k`.
fn parse_cdata(data: &[u8], i: usize, k: usize, depth: i32) -> (r: (Vec<ReaderEvent>, usize))
    requires
        k == i + 1,
        k < data@.len(),
        data@[i as int] == 0x3C,
        data@[k as int] != 0x3F,
        !matches_at(data@, k as int, lit_comment_open()),
        !matches_at(data@, k as int, lit_doctype_upper()),
        !matches_at(data@, k as int, lit_doctype_lower()),
        matches_at(data@, k as int, lit_cdata_open()),
        data@.len() <= i32::MAX,
        -(i as int) <= depth <= i,
    ensures
        step_ok(data@, i as int, depth as int, events_view(r.0@), r.1 as int, depth as int),
{
    let ghost d = data@;
    let n = data.len();
    let s = k + 8;
    let j = cdata_end_exec(data, s);
    let cdata = slice_copy(data, s, j);
    let mut out: Vec<ReaderEvent> = Vec::new();
    if has_non_ws(&cdata) {
        let ghost ev = SpecEvent::Text { value: cdata@, depth: depth as int };
        out.push(ReaderEvent::Text { value: cdata, depth });
        proof {
            assert(events_view(out@) =~= seq![ev]);
        }
    } else {
        proof {
            assert(events_view(out@) =~= Seq::<SpecEvent>::empty());
        }
    }
    let next = if j + 3 > n {
        n
    } else {
        j + 3
    };
    (out, next)
}

/// An end tag `</name>` whose `/` is at `k`.
fn parse_end_tag(data: &[u8], i: usize, k: usize, depth: i32) -> (r: (
    Vec<ReaderEvent>,
    usize,
    i32,
))
    requires
        k == i + 1,
        k < data@.len(),
        data@[i as int] == 0x3C,
        data@[k as int] != 0x3F,
        !matches_at(data@, k as int, lit_comment_open()),
        !matches_at(data@, k as int, lit_doctype_upper()),
        !matches_at(data@, k as int, lit_doctype_lower()),
        !matches_at(data@, k as int, lit_cdata_open()),
        data@[k as int] == 0x2F,
        data@.len() <= i32::MAX,
        -(i as int) <= depth <= i,
    ensures
        step_ok(data@, i as int, depth as int, events_view(r.0@), r.1 as int, r.2 as int),
{
    let n = data.len();
    let s = k + 1;
    let j = scan_to_exec(data, s, 0x3Eu8);
    let raw = slice_copy(data, s, j);
    let name = xml_trim(&raw);
    let next = if j < n {
        j + 1
    } else {
        j
    };
    let nd = depth - 1;
    let ghost ev = SpecEvent::End { name: name@, depth: nd as int };
    let mut out: Vec<ReaderEvent> = Vec::new();
    out.push(ReaderEvent::End { name, depth: nd });
    proof {
        assert(events_view(out@) =~= seq![ev]);
    }
    (out, next, nd)
}

/// A start tag whose name begins at `k`.
fn parse_start_tag(data: &[u8], i: usize, k: usize, depth: i32) -> (r: Option<
    (Vec<ReaderEvent>, usize, i32),
>)
    requires
        k == i + 1,
        k < data@.len(),
        data@.len() <= i32::MAX,
        data@[i as int] == 0x3C,
        data@[k as int] != 0x3F,
        !matches_at(data@, k as int, lit_comment_open()),
        !matches_at(data@, k as int, lit_doctype_upper()),
        !matches_at(data@, k as int, lit_doctype_lower()),
        !matches_at(data@, k as int, lit_cdata_open()),
        data@[k as int] != 0x2F,
        -(i as int) <= depth <= i,
    ensures
        match r {
            Some((evs, next, nd)) => step_ok(
                data@,
                i as int,
                depth as int,
                events_view(evs@),
                next as int,
                nd as int,
            ),
            None => parse_from(data@, i as int, depth as int) is None,
        },
{
    let ghost d = data@;
    let n = data.len();
    let te = tag_name_end_exec(data, k);
    let tag = slice_copy(data, k, te);
    proof {
        lemma_attrs_from_bounds(d, te as int);
    }
    match parse_attrs(data, te) {
        None => None,
        Some((attrs, p)) => {
            let sc = p < n && data[p] == 0x2Fu8;
            let p2 = if sc {
                p + 1
            } else {
                p
            };
            let p3 = if p2 < n && data[p2] == 0x3Eu8 {
                p2 + 1
            } else {
                p2
            };
            let ghost start_ev = SpecEvent::Start {
                name: tag@,
                attrs: attrs_view(attrs@),
                depth: depth as int,
                is_empty: sc,
            };
            let mut out: Vec<ReaderEvent> = Vec::new();
            if sc {
                let tag2 = copy_bytes(&tag);
                let ghost end_ev = SpecEvent::End { name: tag@, depth: depth as int };
                out.push(ReaderEvent::Start { name: tag, attrs, depth, is_empty: true });
                out.push(ReaderEvent::End { name: tag2, depth });
                proof {
                    assert(events_view(out@) =~= seq![start_ev, end_ev]);
                }
                Some((out, p3, depth))
            } else {
                out.push(ReaderEvent::Start { name: tag, attrs, depth, is_empty: false });
                proof {
                    assert(events_view(out@) =~= seq![start_ev]);
                }
                Some((out, p3, depth + 1))
            }
        },
    }
}

/// The item that starts with the `<` at `i`.
fn parse_markup(data: &[u8], i: usize, depth: i32) -> (r: Option<(Vec<ReaderEvent>, usize, i32)>)
    requires
        i < data@.len(),
        data@.len() <= i32::MAX,
        data@[i as int] == 0x3C,
        -(i as int) <= depth <= i,
    ensures
        match r {
            Some((evs, next, nd)) => step_ok(
                data@,
                i as int,
                depth as int,
                events_view(evs@),
                next as int,
                nd as int,
            ),
            None => parse_from(data@, i as int, depth as int) is None,
        },
{
    let ghost d = data@;
    let n = data.len();
    let k = i + 1;
    if k >= n {
        let out: Vec<ReaderEvent> = Vec::new();
        proof {
            assert(events_view(out@) =~= Seq::<SpecEvent>::empty());
            assert(Seq::<SpecEvent>::empty() + Seq::<SpecEvent>::empty() =~= Seq::<
                SpecEvent,
            >::empty());
        }
        return Some((out, n, depth));
    }
    if data[k] == 0x3Fu8 {
        let j = pi_end_exec(data, k);
        let next = if j + 2 > n {
            n
        } else {
            j + 2
        };
        let out: Vec<ReaderEvent> = Vec::new();
        proof {
            assert(events_view(out@) =~= Seq::<SpecEvent>::empty());
            match parse_from(d, next as int, depth as int) {
                Some(rest) => {
                    assert(Seq::<SpecEvent>::empty() + rest =~= rest);
                },
                None => {},
            }
        }
        return Some((out, next, depth));
    }
    let lit_comment = lit_exec_comment_open();
    if matches_at_exec(data, k, &lit_comment) {
        let j = comment_end_exec(data, k + 3);
        let next = if j + 3 > n {
            n
        } else {
            j + 3
        };
        let out: Vec<ReaderEvent> = Vec::new();
        proof {
            assert(events_view(out@) =~= Seq::<SpecEvent>::empty());
            match parse_from(d, next as int, depth as int) {
                Some(rest) => {
                    assert(Seq::<SpecEvent>::empty() + rest =~= rest);
                },
                None => {},
            }
        }
        return Some((out, next, depth));
    }
    let lit_doctype_u = lit_exec_doctype_upper();
    let lit_doctype_l = lit_exec_doctype_lower();
    if matches_at_exec(data, k, &lit_doctype_u) || matches_at_exec(data, k, &lit_doctype_l) {
        let j = scan_to_exec(data, k, 0x3Eu8);
        let next = if j < n {
            j + 1
        } else {
            j
        };
        let out: Vec<ReaderEvent> = Vec::new();
        proof {
            assert(events_view(out@) =~= Seq::<SpecEvent>::empty());
            match parse_from(d, next as int, depth as int) {
                Some(rest) => {
                    assert(Seq::<SpecEvent>::empty() + rest =~= rest);
                },
                None => {},
            }
        }
        return Some((out, next, depth));
    }
    let lit_cdata = lit_exec_cdata_open();
    if matches_at_exec(data, k, &lit_cdata) {
        let (out, next) = parse_cdata(data, i, k, depth);
        return Some((out, next, depth));
    }
    if data[k] == 0x2Fu8 {
        let (out, next, nd) = parse_end_tag(data, i, k, depth);
        return Some((out, next, nd));
    }
    parse_start_tag(data, i, k, depth)
}

/// The attribute scanner always finishes.
pub proof fn lemma_attrs_from_some(d: Seq<u8>, i: int)
    requires
        0 <= i <= d.len(),
    ensures
        attrs_from(d, i) is Some,
    decreases d.len() - i,
{
    lemma_first_non_ws(d, i);
    let k = first_non_ws(d, i);
    if k >= d.len() || d[k] == 0x3E || (d[k] == 0x2F && k + 1 < d.len() && d[k + 1] == 0x3E) {
    } else {
        lemma_attr_name_end(d, k);
        let e = attr_name_end(d, k);
        lemma_first_non_ws(d, e);
        let k2 = first_non_ws(d, e);
        if k2 >= d.len() || d[k2] != 0x3D {
            if e == k {
                lemma_attrs_from_some(d, k + 1);
            } else {
                lemma_attrs_from_some(d, k2);
            }
        } else {
            lemma_first_non_ws(d, k2 + 1);
            let k3 = first_non_ws(d, k2 + 1);
            if k3 < d.len() {
                if d[k3] == 0x22 || d[k3] == 0x27 {
                    lemma_scan_to(d, k3 + 1, d[k3]);
                    let ve = scan_to(d, k3 + 1, d[k3]);
                    lemma_attrs_from_some(d, if ve < d.len() { ve + 1 } else { ve });
                } else {
                    lemma_attrs_from_some(d, k3);
                }
            }
        }
    }
}

/// The parser finishes on every input, from every position.
#[verifier::rlimit(60)]
pub proof fn lemma_parse_from_some(d: Seq<u8>, i: int, depth: int)
    ensures
        parse_from(d, i, depth) is Some,
    decreases d.len() - i,
{
    if i < 0 || i >= d.len() {
    } else if d[i] != 0x3C {
        lemma_scan_to(d, i, 0x3C);
        lemma_parse_from_some(d, scan_to(d, i, 0x3C), depth);
    } else {
        let k = i + 1;
        if k >= d.len() {
        } else if d[k] == 0x3F {
            lemma_pi_end(d, k);
            lemma_parse_from_some(d, clamp_to(pi_end(d, k) + 2, d.len() as int), depth);
        } else if matches_at(d, k, lit_comment_open()) {
            lemma_comment_end(d, k + 3);
            lemma_parse_from_some(d, clamp_to(comment_end(d, k + 3) + 3, d.len() as int), depth);
        } else if matches_at(d, k, lit_doctype_upper()) || matches_at(d, k, lit_doctype_lower()) {
            lemma_scan_to(d, k, 0x3E);
            let j = scan_to(d, k, 0x3E);
            lemma_parse_from_some(d, if j < d.len() { j + 1 } else { j }, depth);
        } else if matches_at(d, k, lit_cdata_open()) {
            lemma_cdata_end(d, k + 8);
            lemma_parse_from_some(d, clamp_to(cdata_end(d, k + 8) + 3, d.len() as int), depth);
        } else if d[k] == 0x2F {
            lemma_scan_to(d, k + 1, 0x3E);
            let j = scan_to(d, k + 1, 0x3E);
            lemma_parse_from_some(d, if j < d.len() { j + 1 } else { j }, depth - 1);
        } else {
            let te = tag_name_end(d, k);
            lemma_tag_name_end(d, k);
            lemma_attrs_from_bounds(d, te);
            lemma_attrs_from_some(d, te);
            let (attrs, p) = attrs_from(d, te)->0;
            let sc = p < d.len() && d[p] == 0x2F;
            let p2 = if sc { p + 1 } else { p };
            let p3 = if p2 < d.len() && d[p2] == 0x3E { p2 + 1 } else { p2 };
            lemma_parse_from_some(d, p3, if sc { depth } else { depth + 1 });
        }
    }
}

/// Parses raw XML bytes into a flat event list, for both the reader
/// interface and the document builder. Every input gives a list.
pub fn xml_parse_events(data: &[u8]) -> (r: Vec<ReaderEvent>)
    requires
        data@.len() <= i32::MAX,
    ensures
        parse_from(data@, 0, 0) == Some(events_view(r@)),
{
    let mut out: Vec<ReaderEvent> = Vec::new();
    let mut depth: i32 = 0;
    let mut i: usize = 0;
    let n = data.len();
    proof {
        match parse_from(data@, 0, 0) {
            Some(r) => {
                assert(events_view(out@) + r =~= r);
            },
            None => {},
        }
    }
    while i < n
        invariant
            n == data@.len(),
            n <= i32::MAX,
            i <= n,
            -(i as int) <= depth <= i,
            parse_from(data@, 0, 0) == prepend_events(
                events_view(out@),
                parse_from(data@, i as int, depth as int),
            ),
        decreases n - i,
    {
        let ghost old_out = events_view(out@);
        let step = if data[i] != 0x3Cu8 {
            let (evs, next) = parse_text(data, i, depth);
            Some((evs, next, depth))
        } else {
            parse_markup(data, i, depth)
        };
        match step {
            None => {
                proof {
                    lemma_parse_from_some(data@, i as int, depth as int);
                }
                return out;
            },
            Some((evs, next, nd)) => {
                let ghost step_evs = events_view(evs@);
                let mut evs = evs;
                out.append(&mut evs);
                proof {
                    assert(events_view(out@) =~= old_out + step_evs);
                    match parse_from(data@, next as int, nd as int) {
                        Some(rest) => {
                            assert(old_out + (step_evs + rest) =~= events_view(out@) + rest);
                        },
                        None => {},
                    }
                }
                i = next;
                depth = nd;
            },
        }
    }
    proof {
        assert(events_view(out@) + Seq::<SpecEvent>::empty() =~= events_view(out@));
    }
    out
}

} // verus!
