//! The `NSString` class cluster, including `NSMutableString`: the host-side
//! string data and the operations on it.
use vstd::prelude::*;
use crate::unicode::{utf16_decode, utf16_encode};
use vstd::utf8::{decode_utf8, encode_utf8, valid_utf8};
use crate::external::{
    lowercase_of, cp1252_decode, cp1252_decoded, shift_jis_decode, shift_jis_decoded, utf8_lossy,
    utf8_lossy_decoded,
};
use crate::objc::{id, nil, ClassId, HostObject, ObjC, ObjectRecord};
use crate::environment::{made_object, Environment, FrameworkState};
use crate::mem::{le_u32, spliced, Mem};
use crate::frameworks::foundation::ns_string_search::{is_surrogate, same_lowercase, NSCaseInsensitiveSearch};
use crate::frameworks::foundation::{
    NSComparisonResult, NSOrderedAscending, NSOrderedDescending, NSOrderedSame, NSRange, NSUInteger,
};

verus! {

broadcast use vstd::utf8::char_u32_cast;

/// The strings made from host text constants, so that each is made once.
pub struct State {
    pub static_str_pool: Vec<(String, id)>,
}

impl State {
    /// No text is pooled twice.
    pub open spec fn wf(&self) -> bool {
        forall|i: int, j: int|
            0 <= i < j < self.static_str_pool@.len() ==> #[trigger] self.static_str_pool@[i].0@
                != #[trigger] self.static_str_pool@[j].0@
    }
}

impl Default for State {
    fn default() -> (s: State)
        ensures
            s.static_str_pool@.len() == 0,
    {
        State { static_str_pool: Vec::new() }
    }
}

/// The host-side data of a string object: text kept either as UTF-8 or as
/// UTF-16 code units.
pub enum StringHostObject {
    Utf8(String),
    Utf16(Vec<u16>),
}

/// The mathematical form of a string's data.
pub enum StrView {
    Utf8(Seq<char>),
    Utf16(Seq<u16>),
}

impl View for StringHostObject {
    type V = StrView;

    open spec fn view(&self) -> StrView {
        match self {
            StringHostObject::Utf8(s) => StrView::Utf8(s@),
            StringHostObject::Utf16(v) => StrView::Utf16(v@),
        }
    }
}

/// The UTF-16 code units of a string's data.
pub open spec fn units_of(v: StrView) -> Seq<u16> {
    match v {
        StrView::Utf8(s) => utf16_encode(s),
        StrView::Utf16(u) => u,
    }
}

/// The text of a string's data, where UTF-16 data decodes.
pub open spec fn text_of(v: StrView) -> Option<Seq<char>> {
    match v {
        StrView::Utf8(s) => Some(s),
        StrView::Utf16(u) => utf16_decode(u),
    }
}

pub const NSASCIIStringEncoding: NSUInteger = 1;
pub const NSUTF8StringEncoding: NSUInteger = 4;
pub const NSISOLatin1StringEncoding: NSUInteger = 5;
pub const NSShiftJISStringEncoding: NSUInteger = 8;
pub const NSUnicodeStringEncoding: NSUInteger = 10;
pub const NSWindowsCP1252StringEncoding: NSUInteger = 12;
pub const NSMacOSRomanStringEncoding: NSUInteger = 30;
pub const NSUTF16StringEncoding: NSUInteger = 10;
pub const NSNextStepLatinStringEncoding: NSUInteger = 0x422;
pub const NSUTF16BigEndianStringEncoding: NSUInteger = 0x90000100;
pub const NSUTF16LittleEndianStringEncoding: NSUInteger = 0x94000100;
pub const NSUTF32LittleEndianStringEncoding: NSUInteger = 0x9c000100;
pub const NSUTF32StringEncoding: NSUInteger = 0x8c000100;
pub const NSUTF32BigEndianStringEncoding: NSUInteger = 0x98000100;

/// Encodings whose bytes are decoded with the CP1252 code page.
pub open spec fn cp1252_like(e: NSUInteger) -> bool {
    e == NSMacOSRomanStringEncoding || e == NSUTF32LittleEndianStringEncoding || e
        == NSUTF32StringEncoding || e == NSUTF32BigEndianStringEncoding || e
        == NSNextStepLatinStringEncoding || e == NSWindowsCP1252StringEncoding
}

pub open spec fn utf16_like(e: NSUInteger) -> bool {
    e == NSUTF16StringEncoding || e == NSUTF16BigEndianStringEncoding || e
        == NSUTF16LittleEndianStringEncoding
}

/// The encodings that can be decoded.
pub open spec fn decodable_encoding(e: NSUInteger) -> bool {
    e == NSASCIIStringEncoding || e == NSISOLatin1StringEncoding || e == NSUTF8StringEncoding
        || e == NSShiftJISStringEncoding || cp1252_like(e) || utf16_like(e)
}

/// `Shift_JIS`
pub open spec fn shift_jis_name() -> Seq<u8> {
    seq![0x53u8, 0x68, 0x69, 0x66, 0x74, 0x5F, 0x4A, 0x49, 0x53]
}

/// Bytes taken one for one as chars.
pub open spec fn latin1_chars(bytes: Seq<u8>) -> Seq<char> {
    bytes.map_values(|b: u8| (b as u32) as char)
}

/// Byte pairs taken as UTF-16 code units.
pub open spec fn utf16_units(bytes: Seq<u8>, big_endian: bool) -> Seq<u16> {
    Seq::new(
        (bytes.len() / 2) as nat,
        |i: int|
            if big_endian {
                (bytes[2 * i] * 256 + bytes[2 * i + 1]) as u16
            } else {
                (bytes[2 * i] + bytes[2 * i + 1] * 256) as u16
            },
    )
}

/// Whether UTF-16 bytes in encoding `e` are big-endian: by the encoding,
/// or for the plain UTF-16 encoding by a leading FE FF byte-order mark.
pub open spec fn utf16_big_endian(bytes: Seq<u8>, e: NSUInteger) -> bool {
    if e == NSUTF16BigEndianStringEncoding {
        true
    } else if e == NSUTF16LittleEndianStringEncoding {
        false
    } else {
        bytes.len() >= 2 && bytes[0] == 0xFE && bytes[1] == 0xFF
    }
}

/// The string data that `bytes` in encoding `e` decode to.
pub open spec fn decoded(bytes: Seq<u8>, e: NSUInteger) -> StrView {
    if bytes.len() == 0 {
        StrView::Utf8(seq![])
    } else if e == NSASCIIStringEncoding || e == NSISOLatin1StringEncoding {
        StrView::Utf8(latin1_chars(bytes))
    } else if e == NSUTF8StringEncoding {
        StrView::Utf8(utf8_lossy_decoded(bytes))
    } else if cp1252_like(e) {
        StrView::Utf8(cp1252_decoded(bytes))
    } else if e == NSShiftJISStringEncoding {
        StrView::Utf8(shift_jis_decoded(bytes).0)
    } else {
        StrView::Utf16(utf16_units(bytes, utf16_big_endian(bytes, e)))
    }
}

/// The inputs on which decoding returns (rather than stopping the
/// emulator): a known encoding, ASCII bytes for ASCII, an even length for
/// UTF-16, and clean Shift_JIS for Shift_JIS.
pub open spec fn can_decode(bytes: Seq<u8>, e: NSUInteger) -> bool {
    bytes.len() == 0 || {
        &&& decodable_encoding(e)
        &&& e == NSASCIIStringEncoding ==> forall|i: int| 0 <= i < bytes.len() ==> bytes[i] < 0x80
        &&& utf16_like(e) ==> bytes.len() % 2 == 0
        &&& e == NSShiftJISStringEncoding ==> shift_jis_decoded(bytes).1 == shift_jis_name()
            && !shift_jis_decoded(bytes).2
    }
}

// ---------------------------------------------------------------------
// Line ranges
// ---------------------------------------------------------------------

/// LF, NEL, LINE SEPARATOR, PARAGRAPH SEPARATOR.
pub open spec fn ends_line(c: u16) -> bool {
    c == 0x000A || c == 0x0085 || c == 0x2028 || c == 0x2029
}

/// Scanning back from `p` for the start of the line, as `line_range_helper`
/// does: stop just after a line separator, or after a CR, except that a CR
/// right before `r_start` whose LF is at `r_start` is stepped over.
pub open spec fn line_start_from(s: Seq<u16>, p: int, r_start: int) -> int
    decreases p,
{
    if p <= 0 {
        0
    } else {
        let c = s[p - 1];
        if ends_line(c) {
            p
        } else if c == 0x000D {
            if p == r_start && p < s.len() && s[p] == 0x000A {
                line_start_from(s, p - 1, r_start)
            } else {
                p
            }
        } else {
            line_start_from(s, p - 1, r_start)
        }
    }
}

/// Scanning forward from `c` for the end of the line: the position after
/// the terminator and the position of the terminator's first unit (a CR
/// LF pair counts as one terminator); both are the length where none is
/// found.
pub open spec fn line_end_from(s: Seq<u16>, c: int) -> (int, int)
    decreases s.len() - c,
{
    if c >= s.len() || c < 0 {
        (c, c)
    } else {
        let ch = s[c];
        if ch == 0x0085 || ch == 0x2028 || ch == 0x2029 {
            (c + 1, c)
        } else if ch == 0x000A {
            if c > 0 && s[c - 1] == 0x000D {
                (c + 1, c - 1)
            } else {
                (c + 1, c)
            }
        } else if ch == 0x000D {
            if c < s.len() - 1 && s[c + 1] == 0x000A {
                (c + 2, c)
            } else {
                (c + 1, c)
            }
        } else {
            line_end_from(s, c + 1)
        }
    }
}

/// The result of `line_range_helper`: the start of the first line, the end
/// of the last line including its terminator, and the end of its contents
/// (0 for a part not asked for).
pub open spec fn line_range_spec(s: Seq<u16>, range: NSRange, get_start: bool, get_end: bool) -> (
    NSUInteger,
    NSUInteger,
    NSUInteger,
) {
    let r_start = range.location as int;
    let r_end = range.location + range.length;
    let start = if get_start {
        line_start_from(s, r_start, r_start)
    } else {
        0
    };
    let c0 = if range.length > 0 {
        r_end - 1
    } else {
        r_start
    };
    let (end, cend) = if get_end {
        line_end_from(s, c0)
    } else {
        (0, 0)
    };
    (start as NSUInteger, end as NSUInteger, cend as NSUInteger)
}

proof fn lemma_line_start_bound(s: Seq<u16>, p: int, r_start: int)
    requires
        0 <= p,
    ensures
        0 <= line_start_from(s, p, r_start) <= p,
    decreases p,
{
    if p > 0 {
        lemma_line_start_bound(s, p - 1, r_start);
    }
}

/// The end found scanning forward from `c` lies past `c` (or is the end).
proof fn lemma_line_end_after(s: Seq<u16>, c: int)
    requires
        0 <= c <= s.len(),
    ensures
        line_end_from(s, c).0 > c || line_end_from(s, c).0 == s.len(),
    decreases s.len() - c,
{
    if c < s.len() {
        let ch = s[c];
        if !(ch == 0x0085 || ch == 0x2028 || ch == 0x2029 || ch == 0x000A || ch == 0x000D) {
            lemma_line_end_after(s, c + 1);
        }
    }
}

/// The line range of a range starts at or before it and ends at or after
/// it.
pub proof fn lemma_line_ranges(s: Seq<u16>, range: NSRange)
    requires
        range.location + range.length <= s.len(),
        s.len() <= u32::MAX,
    ensures
        line_range_spec(s, range, true, true).0 <= range.location,
        line_range_spec(s, range, true, true).1 >= range.location + range.length,
{
    let r_start = range.location as int;
    lemma_line_start_bound(s, r_start, r_start);
    let c0 = if range.length > 0 {
        range.location + range.length - 1
    } else {
        r_start
    };
    lemma_line_end_after(s, c0);
    lemma_line_end_bound(s, c0);
}

proof fn lemma_line_end_bound(s: Seq<u16>, c: int)
    requires
        0 <= c <= s.len(),
    ensures
        line_end_from(s, c).0 <= s.len(),
        line_end_from(s, c).1 <= s.len(),
        0 <= line_end_from(s, c).1,
    decreases s.len() - c,
{
    if c < s.len() {
        let ch = s[c];
        if !(ch == 0x0085 || ch == 0x2028 || ch == 0x2029 || ch == 0x000A || ch == 0x000D) {
            lemma_line_end_bound(s, c + 1);
        }
    }
}

/// The line range around `range` in `string`: the start of the line where
/// it begins, the end of the line where it ends (after the terminator) and
/// that line's end before its terminator. Lines end at LF, CR, CR LF, NEL,
/// LINE SEPARATOR or PARAGRAPH SEPARATOR.
pub fn line_range_helper(string: &Vec<u16>, range: NSRange, get_start: bool, get_end: bool) -> (r: (
    NSUInteger,
    NSUInteger,
    NSUInteger,
))
    requires
        range.location + range.length <= string@.len(),
        string@.len() <= u32::MAX,
    ensures
        r == line_range_spec(string@, range, get_start, get_end),
{
    let ghost s = string@;
    let r_end: usize = (range.location + range.length) as usize;
    let r_start: usize = range.location as usize;
    let str_len = string.len();
    let mut start_pos: usize = 0;
    if get_start {
        start_pos = r_start;
        while start_pos > 0
            invariant
                start_pos <= r_start,
                r_start <= str_len,
                str_len == s.len(),
                s == string@,
                line_start_from(s, start_pos as int, r_start as int) == line_start_from(
                    s,
                    r_start as int,
                    r_start as int,
                ),
            ensures
                start_pos as int == line_start_from(s, r_start as int, r_start as int),
            decreases start_pos,
        {
            let c: u16 = string[start_pos - 1];
            if c == 0x000A || c == 0x0085 || c == 0x2028 || c == 0x2029 {
                break;
            }
            if c == 0x000D {
                if start_pos == r_start && start_pos < str_len {
                    let after_cr: u16 = string[start_pos];
                    if after_cr == 0x000A {
                        start_pos = start_pos - 1;
                        continue;
                    }
                }
                break;
            }
            start_pos = start_pos - 1;
        }
    }
    proof {
        lemma_line_start_bound(s, r_start as int, r_start as int);
    }
    let mut end_pos: usize = 0;
    let mut cend_pos: usize = 0;
    if get_end {
        cend_pos = if range.length > 0 {
            r_end - 1
        } else {
            r_start
        };
        let ghost c0 = cend_pos as int;
        proof {
            lemma_line_end_bound(s, c0);
        }
        let mut found = false;
        while cend_pos < str_len
            invariant_except_break
                cend_pos <= str_len,
                line_end_from(s, cend_pos as int) == line_end_from(s, c0),
                !found,
            invariant
                str_len == s.len(),
                s == string@,
            ensures
                found ==> (end_pos as int, cend_pos as int) == line_end_from(s, c0) && cend_pos
                    < str_len,
                !found ==> cend_pos == str_len && line_end_from(s, c0) == (
                    str_len as int,
                    str_len as int,
                ),
            decreases str_len - cend_pos,
        {
            let c: u16 = string[cend_pos];
            if c == 0x0085 || c == 0x2028 || c == 0x2029 {
                end_pos = cend_pos + 1;
                found = true;
                break;
            }
            if c == 0x000A {
                if cend_pos > 0 && string[cend_pos - 1] == 0x000D {
                    cend_pos = cend_pos - 1;
                    end_pos = cend_pos + 2;
                } else {
                    end_pos = cend_pos + 1;
                }
                found = true;
                break;
            }
            if c == 0x000D {
                if cend_pos < str_len - 1 {
                    let after_cr: u16 = string[cend_pos + 1];
                    if after_cr == 0x000A {
                        end_pos = cend_pos + 2;
                        found = true;
                        break;
                    }
                }
                end_pos = cend_pos + 1;
                found = true;
                break;
            }
            cend_pos = cend_pos + 1;
        }
        if cend_pos == str_len {
            end_pos = cend_pos;
        }
    }
    (start_pos as NSUInteger, end_pos as NSUInteger, cend_pos as NSUInteger)
}

// ---------------------------------------------------------------------
// Decoding
// ---------------------------------------------------------------------

/// Bytes taken one for one as chars.
fn latin1_string(bytes: &[u8]) -> (s: String)
    ensures
        s@ == latin1_chars(bytes@),
{
    let mut s = String::new();
    let mut i: usize = 0;
    while i < bytes.len()
        invariant
            i <= bytes@.len(),
            s@ == latin1_chars(bytes@.subrange(0, i as int)),
        decreases bytes@.len() - i,
    {
        let c = bytes[i] as char;
        s.push(c);
        i = i + 1;
        assert(latin1_chars(bytes@.subrange(0, i as int)) =~= latin1_chars(
            bytes@.subrange(0, i - 1),
        ).push(c));
    }
    assert(bytes@.subrange(0, i as int) =~= bytes@);
    s
}

/// Byte pairs as UTF-16 code units.
fn utf16_from_bytes(bytes: &[u8], big_endian: bool) -> (v: Vec<u16>)
    ensures
        v@ == utf16_units(bytes@, big_endian),
{
    let len = bytes.len();
    let n = len / 2;
    let mut v: Vec<u16> = Vec::new();
    let mut i: usize = 0;
    while i < n
        invariant
            len == bytes@.len(),
            n == bytes@.len() / 2,
            i <= n,
            v@.len() == i,
            forall|j: int| 0 <= j < i ==> v@[j] == utf16_units(bytes@, big_endian)[j],
        decreases n - i,
    {
        assert(i + i + 1 < bytes@.len()) by (nonlinear_arith)
            requires
                i < n,
                n == bytes@.len() / 2,
        ;
        let k: usize = i + i;
        let hi: u16 = bytes[k] as u16;
        let lo: u16 = bytes[k + 1] as u16;
        let u: u16 = if big_endian {
            hi * 256 + lo
        } else {
            hi + lo * 256
        };
        v.push(u);
        i = i + 1;
    }
    assert(v@ =~= utf16_units(bytes@, big_endian));
    v
}

/// Whether Shift_JIS decoding of `bytes` is clean, as `decode` needs.
fn shift_jis_clean(bytes: &[u8]) -> (r: bool)
    ensures
        r == (shift_jis_decoded(bytes@).1 == shift_jis_name() && !shift_jis_decoded(bytes@).2),
{
    let (_text, used, had_errors) = shift_jis_decode(bytes);
    let name: Vec<u8> = vec![0x53u8, 0x68, 0x69, 0x66, 0x74, 0x5F, 0x4A, 0x49, 0x53];
    assert(name@ =~= shift_jis_name());
    crate::frameworks::libxml2::bytes_eq(&used, &name) && !had_errors
}

impl StringHostObject {
    /// Decodes bytes in an encoding. Mac OS Roman, UTF-32 and NeXTSTEP are
    /// read as CP1252 and ISO Latin 1 byte for byte; a UTF-16 byte-order
    /// mark is kept as a code unit.
    pub fn decode(bytes: &[u8], encoding: NSUInteger) -> (r: StringHostObject)
        requires
            can_decode(bytes@, encoding),
        ensures
            r@ == decoded(bytes@, encoding),
    {
        if bytes.len() == 0 {
            return StringHostObject::Utf8(String::new());
        }
        if encoding == NSASCIIStringEncoding || encoding == NSISOLatin1StringEncoding {
            StringHostObject::Utf8(latin1_string(bytes))
        } else if encoding == NSUTF8StringEncoding {
            StringHostObject::Utf8(utf8_lossy(bytes))
        } else if encoding == NSMacOSRomanStringEncoding || encoding
            == NSUTF32LittleEndianStringEncoding || encoding == NSUTF32StringEncoding || encoding
            == NSUTF32BigEndianStringEncoding || encoding == NSNextStepLatinStringEncoding
            || encoding == NSWindowsCP1252StringEncoding {
            StringHostObject::Utf8(cp1252_decode(bytes))
        } else if encoding == NSShiftJISStringEncoding {
            let (text, _used, _had_errors) = shift_jis_decode(bytes);
            StringHostObject::Utf8(text)
        } else {
            let big_endian = if encoding == NSUTF16BigEndianStringEncoding {
                true
            } else if encoding == NSUTF16LittleEndianStringEncoding {
                false
            } else {
                bytes[0] == 0xFEu8 && bytes[1] == 0xFFu8
            };
            StringHostObject::Utf16(utf16_from_bytes(bytes, big_endian))
        }
    }

    /// Decodes where `decode` can; `None` elsewhere.
    pub fn try_decode(bytes: &[u8], encoding: NSUInteger) -> (r: Option<StringHostObject>)
        ensures
            r is Some <==> can_decode(bytes@, encoding),
            r matches Some(h) ==> h@ == decoded(bytes@, encoding),
    {
        if bytes.len() == 0 {
            return Some(StringHostObject::decode(bytes, encoding));
        }
        let known = encoding == NSASCIIStringEncoding || encoding == NSISOLatin1StringEncoding
            || encoding == NSUTF8StringEncoding || encoding == NSShiftJISStringEncoding || encoding
            == NSMacOSRomanStringEncoding || encoding == NSUTF32LittleEndianStringEncoding
            || encoding == NSUTF32StringEncoding || encoding == NSUTF32BigEndianStringEncoding
            || encoding == NSNextStepLatinStringEncoding || encoding == NSWindowsCP1252StringEncoding
            || encoding == NSUTF16StringEncoding || encoding == NSUTF16BigEndianStringEncoding
            || encoding == NSUTF16LittleEndianStringEncoding;
        if !known {
            return None;
        }
        if encoding == NSASCIIStringEncoding {
            let mut i: usize = 0;
            while i < bytes.len()
                invariant
                    i <= bytes@.len(),
                    bytes@.len() > 0,
                    encoding == NSASCIIStringEncoding,
                    forall|j: int| 0 <= j < i ==> bytes@[j] < 0x80,
                decreases bytes@.len() - i,
            {
                if bytes[i] >= 0x80 {
                    assert(bytes@[i as int] >= 0x80);
                    assert(!(forall|j: int| 0 <= j < bytes@.len() ==> bytes@[j] < 0x80));
                    return None;
                }
                i = i + 1;
            }
        }
        if (encoding == NSUTF16StringEncoding || encoding == NSUTF16BigEndianStringEncoding
            || encoding == NSUTF16LittleEndianStringEncoding) && bytes.len() % 2 != 0 {
            return None;
        }
        if encoding == NSShiftJISStringEncoding && !shift_jis_clean(bytes) {
            return None;
        }
        Some(StringHostObject::decode(bytes, encoding))
    }

    /// The text, where UTF-16 data decodes.
    pub fn to_utf8(&self) -> (r: Option<String>)
        ensures
            match text_of(self@) {
                Some(t) => r matches Some(s) && s@ == t,
                None => r is None,
            },
    {
        match self {
            StringHostObject::Utf8(s) => Some(s.clone()),
            StringHostObject::Utf16(u) => crate::unicode::utf16_decode_units(u.as_slice()),
        }
    }

    /// Turns UTF-8 data into UTF-16 code units (the same text); says
    /// whether it had to.
    pub fn convert_to_utf16_inplace(&mut self) -> (converted: bool)
        ensures
            converted == (old(self)@ is Utf8),
            final(self)@ == StrView::Utf16(units_of(old(self)@)),
    {
        let converted = match self {
            StringHostObject::Utf8(_) => true,
            StringHostObject::Utf16(_) => false,
        };
        if converted {
            let units = self.code_units();
            *self = StringHostObject::Utf16(units);
        }
        converted
    }

    /// The UTF-16 code units.
    pub fn code_units(&self) -> (v: Vec<u16>)
        ensures
            v@ == units_of(self@),
    {
        match self {
            StringHostObject::Utf8(s) => crate::unicode::utf16_encode_str(s.as_str()),
            StringHostObject::Utf16(u) => {
                let mut v: Vec<u16> = Vec::new();
                let mut i: usize = 0;
                while i < u.len()
                    invariant
                        i <= u@.len(),
                        v@ == u@.subrange(0, i as int),
                    decreases u@.len() - i,
                {
                    v.push(u[i]);
                    i = i + 1;
                    assert(v@ =~= u@.subrange(0, i as int));
                }
                assert(u@.subrange(0, u@.len() as int) =~= u@);
                v
            },
        }
    }
}

// ---------------------------------------------------------------------
// String objects
// ---------------------------------------------------------------------

/// The record of a new string object of class `class` holding `h`.
pub open spec fn string_record(class: ClassId, h: StringHostObject) -> ObjectRecord {
    ObjectRecord { class, host: HostObject::Str(h), refcount: 1, is_static: false }
}

/// `o` is a live object with string data.
pub open spec fn is_string(env: Environment, o: id) -> bool {
    env.objc.objects@.contains_key(o) && env.objc.objects@[o].host is Str
}

/// The string data of `o`.
pub open spec fn string_data(env: Environment, o: id) -> StrView {
    match env.objc.objects@[o].host {
        HostObject::Str(h) => h@,
        _ => StrView::Utf8(seq![]),
    }
}

/// A new `NSString` holding `from`.
pub fn from_rust_string(env: &mut Environment, from: String) -> (o: id)
    requires
        old(env).wf(),
        old(env).mem@.len() + 4 <= u32::MAX,
    ensures
        final(env).wf(),
        made_object(
            *old(env),
            *final(env),
            o,
            string_record(ClassId::NSString, StringHostObject::Utf8(from)),
        ),
{
    env.new_object(ClassId::NSString, HostObject::Str(StringHostObject::Utf8(from)))
}

/// The text that a formatted string holds: the bytes that the formatter
/// printed, decoded as UTF-8 with invalid sequences replaced.
pub fn with_format_output(printed: &[u8]) -> (s: String)
    ensures
        s@ == utf8_lossy_decoded(printed@),
        valid_utf8(printed@) ==> s@ == decode_utf8(printed@),
{
    utf8_lossy(printed)
}

/// `initWithFormat:` once the formatter has printed: the string object
/// `this` (a newly allocated string, never a static one) now holds that
/// output as text, and is returned.
pub fn init_with_format_inner(env: &mut Environment, this: id, printed: &[u8]) -> (r: id)
    requires
        old(env).wf(),
        is_string(*old(env), this),
        !old(env).objc.objects@[this].is_static,
    ensures
        final(env).objc.autorelease_pool@ == old(env).objc.autorelease_pool@,
        r == this,
        final(env).wf(),
        final(env).mem == old(env).mem,
        final(env).framework_state == old(env).framework_state,
        final(env).objc.classes == old(env).objc.classes,
        final(env).objc.objects@.dom() == old(env).objc.objects@.dom(),
        forall|o: id| o != this && #[trigger] old(env).objc.objects@.contains_key(o) ==> final(env).objc.objects@[o]
            == old(env).objc.objects@[o],
        final(env).objc.objects@[this].class == old(env).objc.objects@[this].class,
        final(env).objc.objects@[this].refcount == old(env).objc.objects@[this].refcount,
        final(env).objc.objects@[this].is_static == old(env).objc.objects@[this].is_static,
        final(env).objc.objects@[this].host is Str,
        string_data(*final(env), this) == StrView::Utf8(utf8_lossy_decoded(printed@)),
{
    let text = with_format_output(printed);
    env.objc.set_host(this, HostObject::Str(StringHostObject::Utf8(text)));
    assert(env.objc.objects@.dom() =~= old(env).objc.objects@.dom());
    this
}

/// A new `NSMutableString` holding `from`.
pub fn mutable_from_rust_string(env: &mut Environment, from: String) -> (o: id)
    requires
        old(env).wf(),
        old(env).mem@.len() + 4 <= u32::MAX,
    ensures
        final(env).wf(),
        made_object(
            *old(env),
            *final(env),
            o,
            string_record(ClassId::NSMutableString, StringHostObject::Utf8(from)),
        ),
{
    env.new_object(ClassId::NSMutableString, HostObject::Str(StringHostObject::Utf8(from)))
}

/// A new `NSString` holding the UTF-16 code units `from`.
pub fn from_u16_vec(env: &mut Environment, from: Vec<u16>) -> (o: id)
    requires
        old(env).wf(),
        old(env).mem@.len() + 4 <= u32::MAX,
    ensures
        final(env).wf(),
        made_object(
            *old(env),
            *final(env),
            o,
            string_record(ClassId::NSString, StringHostObject::Utf16(from)),
        ),
{
    env.new_object(ClassId::NSString, HostObject::Str(StringHostObject::Utf16(from)))
}

/// The text of a string object (whose UTF-16 data must decode).
pub fn to_rust_string(env: &mut Environment, string: id) -> (s: String)
    requires
        is_string(*old(env), string),
        text_of(string_data(*old(env), string)) is Some,
    ensures
        *final(env) == *old(env),
        s@ == text_of(string_data(*old(env), string))->0,
{
    match env.objc.host_of(string) {
        HostObject::Str(h) => h.to_utf8().unwrap(),
        _ => String::new(),
    }
}

/// The code units of a string object with their indices, in order: what
/// is handed, one pair at a time, to a caller's function.
pub fn for_each_code_unit(env: &mut Environment, string: id) -> (r: Vec<(NSUInteger, u16)>)
    requires
        is_string(*old(env), string),
        units_of(string_data(*old(env), string)).len() <= u32::MAX + 1,
    ensures
        *final(env) == *old(env),
        r@.len() == units_of(string_data(*old(env), string)).len(),
        forall|i: int|
            0 <= i < r@.len() ==> #[trigger] r@[i] == (i as NSUInteger, units_of(
                string_data(*old(env), string),
            )[i]),
{
    let units = match env.objc.host_of(string) {
        HostObject::Str(h) => h.code_units(),
        _ => Vec::new(),
    };
    let mut r: Vec<(NSUInteger, u16)> = Vec::new();
    let mut i: usize = 0;
    while i < units.len()
        invariant
            i <= units@.len(),
            units@.len() <= u32::MAX + 1,
            r@.len() == i,
            forall|j: int| 0 <= j < i ==> #[trigger] r@[j] == (j as NSUInteger, units@[j]),
        decreases units@.len() - i,
    {
        r.push((i as NSUInteger, units[i]));
        i = i + 1;
    }
    r
}

/// `std::cmp::Ordering` as an `NSComparisonResult`.
pub fn from_rust_ordering(ordering: std::cmp::Ordering) -> (r: NSComparisonResult)
    ensures
        r == match ordering {
            std::cmp::Ordering::Less => NSOrderedAscending,
            std::cmp::Ordering::Equal => NSOrderedSame,
            std::cmp::Ordering::Greater => NSOrderedDescending,
        },
{
    match ordering {
        std::cmp::Ordering::Less => NSOrderedAscending,
        std::cmp::Ordering::Equal => NSOrderedSame,
        std::cmp::Ordering::Greater => NSOrderedDescending,
    }
}

/// The object cached for the text `k` in the pool, if any (the first
/// entry wins).
pub open spec fn pool_lookup(pool: Seq<(String, id)>, k: Seq<char>) -> Option<id>
    decreases pool.len(),
{
    if pool.len() == 0 {
        None
    } else if pool[0].0@ == k {
        Some(pool[0].1)
    } else {
        pool_lookup(pool.drop_first(), k)
    }
}

proof fn lemma_pool_lookup_none(pool: Seq<(String, id)>, k: Seq<char>)
    requires
        pool_lookup(pool, k) is None,
    ensures
        forall|i: int| 0 <= i < pool.len() ==> #[trigger] pool[i].0@ != k,
    decreases pool.len(),
{
    if pool.len() > 0 {
        lemma_pool_lookup_none(pool.drop_first(), k);
        assert forall|i: int| 0 <= i < pool.len() implies #[trigger] pool[i].0@ != k by {
            if i > 0 {
                assert(pool[i] == pool.drop_first()[i - 1]);
            }
        }
    }
}

/// Where the pool finds a text, it has it at some position.
pub proof fn lemma_pool_lookup_some(pool: Seq<(String, id)>, k: Seq<char>)
    requires
        pool_lookup(pool, k) is Some,
    ensures
        exists|i: int| 0 <= i < pool.len() && (#[trigger] pool[i]).0@ == k && pool[i].1 == pool_lookup(pool, k)->0,
    decreases pool.len(),
{
    if pool[0].0@ != k {
        lemma_pool_lookup_some(pool.drop_first(), k);
        let i = choose|i: int| 0 <= i < pool.drop_first().len() && (#[trigger] pool.drop_first()[i]).0@ == k
            && pool.drop_first()[i].1 == pool_lookup(pool.drop_first(), k)->0;
        assert(pool[i + 1] == pool.drop_first()[i]);
    } else {
        assert(pool[0].0@ == k);
    }
}

/// A string object for host text, made once per text and never freed.
pub fn get_static_str(env: &mut Environment, from: &str) -> (o: id)
    requires
        old(env).wf(),
        old(env).mem@.len() + 4 <= u32::MAX,
    ensures
        final(env).objc.autorelease_pool@ == old(env).objc.autorelease_pool@,
        final(env).wf(),
        final(env).objc.objects@.contains_key(o),
        final(env).objc.objects@[o].is_static,
        string_data(*final(env), o) == StrView::Utf8(from@),
        pool_lookup(old(env).framework_state.ns_string.static_str_pool@, from@) matches Some(x)
            ==> o == x && *final(env) == *old(env),
        pool_lookup(old(env).framework_state.ns_string.static_str_pool@, from@) is None ==> {
            &&& o == old(env).mem@.len()
            &&& !old(env).objc.objects@.contains_key(o)
            &&& final(env).mem@ == old(env).mem@ + Seq::new(4, |i: int| 0u8)
            &&& final(env).objc.objects@.dom() == old(env).objc.objects@.dom().insert(o)
            &&& forall|x: u32| #[trigger] old(env).objc.objects@.contains_key(x) ==> final(env).objc.objects@[x] == old(env).objc.objects@[x]
            &&& final(env).objc.objects@[o].class == ClassId::NSStringStatic
            &&& final(env).objc.objects@[o].is_static
            &&& string_data(*final(env), o) == StrView::Utf8(from@)
            &&& final(env).objc.classes == old(env).objc.classes
            &&& final(env).framework_state.ns_string.static_str_pool@.len() == old(env).framework_state.ns_string.static_str_pool@.len() + 1
            &&& final(env).framework_state.ns_string.static_str_pool@.drop_last() == old(env).framework_state.ns_string.static_str_pool@
            &&& final(env).framework_state.ns_string.static_str_pool@.last().0@ == from@
            &&& final(env).framework_state.ns_string.static_str_pool@.last().1 == o
        },
{
    let ghost pool0 = env.framework_state.ns_string.static_str_pool@;
    let ghost env0 = *env;
    let key = from.to_owned();
    let mut i: usize = 0;
    assert(pool0.subrange(0, pool0.len() as int) =~= pool0);
    while i < env.framework_state.ns_string.static_str_pool.len()
        invariant
            *env == env0,
            env0 == *old(env),
            env.wf(),
            key@ == from@,
            pool0 == env.framework_state.ns_string.static_str_pool@,
            i <= pool0.len(),
            pool_lookup(pool0.subrange(i as int, pool0.len() as int), from@) == pool_lookup(
                pool0,
                from@,
            ),
        decreases pool0.len() - i,
    {
        let ghost rest = pool0.subrange(i as int, pool0.len() as int);
        assert(rest[0] == pool0[i as int]);
        if env.framework_state.ns_string.static_str_pool[i].0 == key {
            proof {
                assert(pool_lookup(rest, from@) == Some(pool0[i as int].1));
                let k = i as int;
                assert(pool0[k].0@ == from@);
            }
            return env.framework_state.ns_string.static_str_pool[i].1;
        }
        assert(rest.drop_first() =~= pool0.subrange(i + 1, pool0.len() as int));
        i = i + 1;
    }
    assert(pool0.subrange(i as int, pool0.len() as int) =~= Seq::<(String, id)>::empty());
    let o = env.mem.allocate(4);
    env.objc.register_static_object(
        o,
        ClassId::NSStringStatic,
        HostObject::Str(StringHostObject::Utf8(key)),
    );
    proof {
        lemma_pool_lookup_none(pool0, from@);
    }
    env.framework_state.ns_string.static_str_pool.push((from.to_owned(), o));
    proof {
        let pool1 = env.framework_state.ns_string.static_str_pool@;
        assert forall|i: int, j: int| 0 <= i < j < pool1.len() implies #[trigger] pool1[i].0@ != #[trigger] pool1[j].0@ by {
            assert(pool1[i] == pool0[i]);
            if j < pool0.len() {
                assert(pool1[j] == pool0[j]);
            }
        }
        assert(env.framework_state.ns_string.static_str_pool@.drop_last() =~= pool0);
        assert(env.objc.objects@.dom() =~= old(env).objc.objects@.dom().insert(o));
    }
    o
}

/// The address of the UTF-16 units of a constant UTF-16 string (the
/// `bytes` field of its `__cfstring` record); null for any other string.
/// The constant-string class object is looked up (made on first use) on
/// the way.
#[allow(non_snake_case)]
pub fn CFStringGetCharactersPtr(env: &mut Environment, the_string: id) -> (r: u32)
    requires
        old(env).wf(),
        the_string == nil || old(env).objc.objects@.contains_key(the_string),
        the_string != nil ==> old(env).mem@.len() + 4 <= u32::MAX,
        the_string != nil && old(env).objc.objects@[the_string].class == ClassId::ConstantStringUtf16
            ==> the_string + 12 <= old(env).mem@.len(),
    ensures
        final(env).objc.autorelease_pool@ == old(env).objc.autorelease_pool@,
        final(env).wf(),
        final(env).framework_state == old(env).framework_state,
        final(env).objc.objects@ == old(env).objc.objects@,
        the_string == nil ==> *final(env) == *old(env),
        the_string != nil ==> {
            let code = crate::objc::class_code(ClassId::ConstantStringUtf16);
            &&& old(env).objc.classes@.contains_key(code) ==> final(env).mem == old(env).mem
                && final(env).objc.classes@ == old(env).objc.classes@
            &&& !old(env).objc.classes@.contains_key(code) ==> final(env).mem@ == old(env).mem@
                + Seq::new(4, |i: int| 0u8) && final(env).objc.classes@ == old(env).objc.classes@.insert(
                code,
                old(env).mem@.len() as u32,
            )
        },
        r == if the_string != nil && old(env).objc.objects@[the_string].class
            == ClassId::ConstantStringUtf16 {
            le_u32(old(env).mem@, the_string + 8) as u32
        } else {
            0
        },
{
    if the_string == nil {
        return 0;
    }
    let class = env.objc.class_of(the_string);
    let _constant_utf16_class = env.objc.get_known_class(ClassId::ConstantStringUtf16, &mut env.mem);
    if class == ClassId::ConstantStringUtf16 {
        proof {
            env.mem.lemma_len_bound();
            assert forall|t: int| 0 <= t < 4 implies #[trigger] env.mem@[the_string + 8 + t] == old(env).mem@[the_string + 8 + t] by {
            }
        }
        env.mem.read_u32(the_string + 8)
    } else {
        0
    }
}

// ---------------------------------------------------------------------
// Encoding into a guest buffer
// ---------------------------------------------------------------------

/// UTF-16 code units as little-endian byte pairs.
pub open spec fn le16_bytes(u: Seq<u16>) -> Seq<u8>
    decreases u.len(),
{
    if u.len() == 0 {
        seq![]
    } else {
        le16_bytes(u.drop_last()) + seq![(u.last() % 256) as u8, (u.last() / 256) as u8]
    }
}

/// UTF-16 code units as big-endian byte pairs.
pub open spec fn be16_bytes(u: Seq<u16>) -> Seq<u8>
    decreases u.len(),
{
    if u.len() == 0 {
        seq![]
    } else {
        be16_bytes(u.drop_last()) + seq![(u.last() / 256) as u8, (u.last() % 256) as u8]
    }
}

/// The four bytes of a 32-bit value, least significant first.
pub open spec fn le32_of(v: u32) -> Seq<u8> {
    seq![(v % 256) as u8, ((v / 256) % 256) as u8, ((v / 65536) % 256) as u8, (v / 16777216) as u8]
}

/// Chars as little-endian (or, reversed per char, big-endian) UTF-32.
pub open spec fn utf32_bytes(cs: Seq<char>, big_endian: bool) -> Seq<u8>
    decreases cs.len(),
{
    if cs.len() == 0 {
        seq![]
    } else {
        let b = le32_of(cs.last() as u32);
        utf32_bytes(cs.drop_last(), big_endian) + if big_endian {
            b.reverse()
        } else {
            b
        }
    }
}

/// Encodings written byte for byte, which refuse chars above U+00FF.
pub open spec fn latin_group(e: NSUInteger) -> bool {
    e == NSASCIIStringEncoding || e == NSMacOSRomanStringEncoding || e
        == NSISOLatin1StringEncoding || e == NSNextStepLatinStringEncoding
}

pub open spec fn utf16_group(e: NSUInteger) -> bool {
    e == NSUTF16LittleEndianStringEncoding || e == NSUTF16StringEncoding || e
        == NSUTF16BigEndianStringEncoding
}

pub open spec fn utf32_group(e: NSUInteger) -> bool {
    e == NSUTF32LittleEndianStringEncoding || e == NSUTF32BigEndianStringEncoding || e
        == NSUTF32StringEncoding
}

/// The bytes that `get_bytes_buffer_inner` writes for text `cs` in
/// encoding `e`: `None` where a char does not fit a one-byte encoding. The
/// one-byte encodings write each char as the byte of its code point;
/// unknown encodings are written as UTF-8.
pub open spec fn encoded_bytes(cs: Seq<char>, e: NSUInteger, with_nul: bool) -> Option<Seq<u8>> {
    let body = if latin_group(e) {
        if exists|i: int| 0 <= i < cs.len() && (cs[i] as u32) > 0xFF {
            None
        } else {
            Some(latin1_bytes(cs, false))
        }
    } else if e == NSUTF16LittleEndianStringEncoding || e == NSUTF16StringEncoding {
        Some(le16_bytes(utf16_encode(cs)))
    } else if e == NSUTF16BigEndianStringEncoding {
        Some(be16_bytes(utf16_encode(cs)))
    } else if e == NSUTF32LittleEndianStringEncoding {
        Some(utf32_bytes(cs, false))
    } else if e == NSUTF32BigEndianStringEncoding || e == NSUTF32StringEncoding {
        Some(utf32_bytes(cs, true))
    } else {
        Some(encode_utf8(cs))
    };
    let term: Seq<u8> = if !with_nul {
        seq![]
    } else if utf16_group(e) {
        seq![0u8, 0u8]
    } else if utf32_group(e) {
        seq![0u8, 0u8, 0u8, 0u8]
    } else {
        seq![0u8]
    };
    match body {
        Some(b) => Some(b + term),
        None => None,
    }
}

fn le16_bytes_exec(u: &[u16], big_endian: bool) -> (v: Vec<u8>)
    ensures
        v@ == if big_endian {
            be16_bytes(u@)
        } else {
            le16_bytes(u@)
        },
{
    let mut v: Vec<u8> = Vec::new();
    let mut i: usize = 0;
    while i < u.len()
        invariant
            i <= u@.len(),
            v@ == if big_endian {
                be16_bytes(u@.subrange(0, i as int))
            } else {
                le16_bytes(u@.subrange(0, i as int))
            },
        decreases u@.len() - i,
    {
        let x = u[i];
        let lo = (x % 256) as u8;
        let hi = (x / 256) as u8;
        if big_endian {
            v.push(hi);
            v.push(lo);
        } else {
            v.push(lo);
            v.push(hi);
        }
        i = i + 1;
        assert(u@.subrange(0, i as int).drop_last() =~= u@.subrange(0, i - 1));
    }
    assert(u@.subrange(0, u@.len() as int) =~= u@);
    v
}

fn utf32_bytes_exec(cs: &[char], big_endian: bool) -> (v: Vec<u8>)
    ensures
        v@ == utf32_bytes(cs@, big_endian),
{
    let mut v: Vec<u8> = Vec::new();
    let mut i: usize = 0;
    while i < cs.len()
        invariant
            i <= cs@.len(),
            v@ == utf32_bytes(cs@.subrange(0, i as int), big_endian),
        decreases cs@.len() - i,
    {
        let x = cs[i] as u32;
        let b0 = (x % 256) as u8;
        let b1 = ((x / 256) % 256) as u8;
        let b2 = ((x / 65536) % 256) as u8;
        let b3 = (x / 16777216) as u8;
        let ghost before = v@;
        if big_endian {
            v.push(b3);
            v.push(b2);
            v.push(b1);
            v.push(b0);
        } else {
            v.push(b0);
            v.push(b1);
            v.push(b2);
            v.push(b3);
        }
        i = i + 1;
        proof {
            assert(cs@.subrange(0, i as int).drop_last() =~= cs@.subrange(0, i - 1));
            assert(cs@.subrange(0, i as int).last() == cs@[i - 1]);
            let b = le32_of(x);
            if big_endian {
                assert(b.reverse() =~= seq![b3, b2, b1, b0]);
                assert(v@ =~= before + b.reverse());
            } else {
                assert(v@ =~= before + b);
            }
        }
    }
    assert(cs@.subrange(0, cs@.len() as int) =~= cs@);
    v
}

/// Whether every char is at most U+00FF.
pub fn all_latin1(cs: &[char]) -> (r: bool)
    ensures
        r == !(exists|i: int| 0 <= i < cs@.len() && (cs@[i] as u32) > 0xFF),
{
    let mut k: usize = 0;
    while k < cs.len()
        invariant
            k <= cs@.len(),
            forall|j: int| 0 <= j < k ==> (cs@[j] as u32) <= 0xFF,
        decreases cs@.len() - k,
    {
        if (cs[k] as u32) > 0xFF {
            assert(0 <= k < cs@.len() && (cs@[k as int] as u32) > 0xFF);
            return false;
        }
        k = k + 1;
    }
    true
}

/// Writes the text of `str` into the guest buffer `buffer` of
/// `buffer_size` bytes, in `encoding`, with a terminator of the
/// encoding's unit size if asked. Fails, writing nothing, where a char does
/// not fit a one-byte encoding or the bytes do not fit the buffer.
pub fn get_bytes_buffer_inner(
    env: &mut Environment,
    str: id,
    buffer: u32,
    buffer_size: NSUInteger,
    encoding: NSUInteger,
    include_null_terminator: bool,
) -> (r: bool)
    requires
        old(env).wf(),
        is_string(*old(env), str),
        text_of(string_data(*old(env), str)) is Some,
        encoded_bytes(text_of(string_data(*old(env), str))->0, encoding, include_null_terminator) matches Some(b)
            ==> b.len() <= u32::MAX && (b.len() <= buffer_size ==> buffer + buffer_size <= old(env).mem@.len()),
    ensures
        final(env).wf(),
        final(env).objc == old(env).objc,
        final(env).framework_state == old(env).framework_state,
        final(env).mem.live_blocks() == old(env).mem.live_blocks(),
        match encoded_bytes(text_of(string_data(*old(env), str))->0, encoding, include_null_terminator) {
            Some(b) => if b.len() <= buffer_size {
                r && final(env).mem@ == spliced(old(env).mem@, buffer as int, b)
            } else {
                !r && final(env).mem@ == old(env).mem@
            },
            None => !r && final(env).mem@ == old(env).mem@,
        },
{
    let string = to_rust_string(env, str);
    let cs = crate::unicode::chars_of(string.as_str());
    let latin = encoding == NSASCIIStringEncoding || encoding == NSMacOSRomanStringEncoding
        || encoding == NSISOLatin1StringEncoding || encoding == NSNextStepLatinStringEncoding;
    let mut bytes: Vec<u8> = if latin {
        if !all_latin1(cs.as_slice()) {
            return false;
        }
        latin1_bytes_exec(cs.as_slice(), false)
    } else if encoding == NSUTF16LittleEndianStringEncoding || encoding == NSUTF16StringEncoding {
        let u = crate::unicode::utf16_encode_chars(cs.as_slice());
        le16_bytes_exec(u.as_slice(), false)
    } else if encoding == NSUTF16BigEndianStringEncoding {
        let u = crate::unicode::utf16_encode_chars(cs.as_slice());
        le16_bytes_exec(u.as_slice(), true)
    } else if encoding == NSUTF32LittleEndianStringEncoding {
        utf32_bytes_exec(cs.as_slice(), false)
    } else if encoding == NSUTF32BigEndianStringEncoding || encoding == NSUTF32StringEncoding {
        utf32_bytes_exec(cs.as_slice(), true)
    } else {
        crate::unicode::utf8_bytes(string.as_str())
    };
    let ghost body = bytes@;
    if include_null_terminator {
        if encoding == NSUTF16LittleEndianStringEncoding || encoding
            == NSUTF16BigEndianStringEncoding || encoding == NSUTF16StringEncoding {
            bytes.push(0);
            bytes.push(0);
        } else if encoding == NSUTF32LittleEndianStringEncoding || encoding
            == NSUTF32BigEndianStringEncoding || encoding == NSUTF32StringEncoding {
            bytes.push(0);
            bytes.push(0);
            bytes.push(0);
            bytes.push(0);
        } else {
            bytes.push(0);
        }
    }
    proof {
        let cs0 = text_of(string_data(*old(env), str))->0;
        assert(cs@ == cs0);
        if include_null_terminator {
            if utf16_group(encoding) {
                assert(bytes@ =~= body + seq![0u8, 0u8]);
            } else if utf32_group(encoding) {
                assert(bytes@ =~= body + seq![0u8, 0u8, 0u8, 0u8]);
            } else {
                assert(bytes@ =~= body + seq![0u8]);
            }
        } else {
            assert(bytes@ =~= body + Seq::<u8>::empty());
        }
        assert(encoded_bytes(cs0, encoding, include_null_terminator) == Some(bytes@));
    }
    if (buffer_size as usize) < bytes.len() {
        return false;
    }
    env.mem.write_bytes(buffer, bytes.as_slice());
    true
}

// ---------------------------------------------------------------------
// Constant strings of the binary
// ---------------------------------------------------------------------

/// Flags of a constant string with UTF-8 bytes.
pub const CFSTR_UTF8_FLAGS: u32 = 0x7C8;

/// Flags of a constant string with UTF-16 units.
pub const CFSTR_UTF16_FLAGS: u32 = 0x7D0;

/// Address of the `k`-th 16-byte record of a `__cfstring` section.
pub open spec fn cf_ptr(base: u32, k: int) -> int {
    base + 16 * k
}

/// The `flags`, `bytes` and `length` fields of the record at `p`.
pub open spec fn cf_flags(mem: Seq<u8>, p: int) -> int {
    le_u32(mem, p + 4)
}

pub open spec fn cf_bytes(mem: Seq<u8>, p: int) -> int {
    le_u32(mem, p + 8)
}

pub open spec fn cf_length(mem: Seq<u8>, p: int) -> int {
    le_u32(mem, p + 12)
}

/// Number of bytes the text of the record at `p` takes.
pub open spec fn cf_data_len(mem: Seq<u8>, p: int) -> int {
    if cf_flags(mem, p) == CFSTR_UTF8_FLAGS {
        cf_length(mem, p)
    } else {
        2 * cf_length(mem, p)
    }
}

/// The string data of the record at `p`: lossy UTF-8, or little-endian
/// UTF-16.
pub open spec fn cf_data(mem: Seq<u8>, p: int) -> StrView {
    let d = mem.subrange(cf_bytes(mem, p), cf_bytes(mem, p) + cf_data_len(mem, p));
    if cf_flags(mem, p) == CFSTR_UTF8_FLAGS {
        StrView::Utf8(utf8_lossy_decoded(d))
    } else {
        StrView::Utf16(utf16_units(d, false))
    }
}

pub open spec fn cf_class(mem: Seq<u8>, p: int) -> ClassId {
    if cf_flags(mem, p) == CFSTR_UTF8_FLAGS {
        ClassId::ConstantStringUtf8
    } else {
        ClassId::ConstantStringUtf16
    }
}

/// The section at `base` of `size` bytes holds well-formed records whose
/// text lies in memory outside the section, and memory has room for the
/// two class objects. The text lying outside is how a Mach-O binary is
/// laid out: a record in `__cfstring` points into the `__cstring` or
/// `__ustring` section, never into `__cfstring` itself; it is what lets
/// each string be read as the binary holds it while the records' `isa`
/// words are being written.
pub open spec fn cfstrings_ok(mem: Seq<u8>, base: u32, size: u32) -> bool {
    &&& size % 16 == 0
    &&& base != 0
    &&& base + size <= mem.len()
    &&& mem.len() + 8 <= u32::MAX
    &&& forall|k: int|
        0 <= k < size / 16 ==> {
            let p = #[trigger] cf_ptr(base, k);
            &&& (cf_flags(mem, p) == CFSTR_UTF8_FLAGS || cf_flags(mem, p) == CFSTR_UTF16_FLAGS)
            &&& cf_data_len(mem, p) <= u32::MAX
            &&& cf_bytes(mem, p) + cf_data_len(mem, p) <= mem.len()
            &&& (cf_bytes(mem, p) + cf_data_len(mem, p) <= base || cf_bytes(mem, p) >= base + size)
        }
}

/// How many of the two constant-string classes `c` has that `c0` has not.
pub open spec fn added_classes(c0: Map<u32, u32>, c: Map<u32, u32>) -> int {
    (if c.contains_key(4) && !c0.contains_key(4) {
        1int
    } else {
        0int
    }) + (if c.contains_key(5) && !c0.contains_key(5) {
        1int
    } else {
        0int
    })
}

/// `j` lies in the `isa` word of one of the first `n` records.
pub open spec fn in_isa_word(base: u32, n: int, j: int) -> bool {
    base <= j && (j - base) / 16 < n && (j - base) % 16 < 4
}

proof fn lemma_cf_offsets(base: u32, k: int, t: int)
    requires
        0 <= k,
        0 <= t < 16,
    ensures
        (cf_ptr(base, k) + t - base) / 16 == k,
        (cf_ptr(base, k) + t - base) % 16 == t,
{
    assert((16 * k + t) / 16 == k && (16 * k + t) % 16 == t) by (nonlinear_arith)
        requires
            0 <= k,
            0 <= t < 16,
    ;
}

/// Registers the constant strings of the binary's `__cfstring` section
/// (its address and size, if it has one) as static string objects at their
/// own addresses, and points each one's `isa` at its class.
pub fn register_constant_strings(cfstrings: Option<(u32, u32)>, mem: &mut Mem, objc: &mut ObjC)
    requires
        old(mem).wf(),
        old(objc).wf(),
        cfstrings matches Some((base, size)) ==> cfstrings_ok(old(mem)@, base, size),
    ensures
        final(objc).autorelease_pool@ == old(objc).autorelease_pool@,
        final(mem).wf(),
        final(objc).wf(),
        cfstrings is None ==> *final(mem) == *old(mem) && *final(objc) == *old(objc),
        cfstrings matches Some((base, size)) ==> {
            let n = size / 16;
            &&& old(mem)@.len() <= final(mem)@.len() <= old(mem)@.len() + 8
            &&& forall|j: int|
                0 <= j < old(mem)@.len() && !in_isa_word(base, n as int, j) ==> #[trigger] final(mem)@[j]
                    == old(mem)@[j]
            &&& forall|c: u32| #[trigger] old(objc).classes@.contains_key(c) ==> final(objc).classes@.contains_key(c)
                && final(objc).classes@[c] == old(objc).classes@[c]
            &&& forall|x: u32|
                #[trigger] final(objc).objects@.contains_key(x) <==> (old(objc).objects@.contains_key(x)
                    || exists|k: int| 0 <= k < n && x == cf_ptr(base, k))
            &&& forall|x: u32|
                old(objc).objects@.contains_key(x) && !(exists|k: int| 0 <= k < n && x == cf_ptr(base, k))
                    ==> #[trigger] final(objc).objects@[x] == old(objc).objects@[x]
            &&& forall|k: int|
                0 <= k < n ==> {
                    let p = #[trigger] cf_ptr(base, k);
                    let rec = final(objc).objects@[p as u32];
                    &&& rec.class == cf_class(old(mem)@, p)
                    &&& rec.is_static
                    &&& rec.refcount == 0
                    &&& rec.host matches HostObject::Str(h) && h@ == cf_data(old(mem)@, p)
                    &&& final(objc).classes@.contains_key(crate::objc::class_code(rec.class))
                    &&& le_u32(final(mem)@, p) == final(objc).classes@[crate::objc::class_code(rec.class)]
                }
        },
{
    let (base, size) = match cfstrings {
        Some(x) => x,
        None => {
            return;
        },
    };
    let ghost m0 = mem@;
    let ghost o0 = objc.objects@;
    let ghost c0 = objc.classes@;
    let n = size / 16;
    let mut i: u32 = 0;
    while i < n
        invariant
            mem.wf(),
            objc.wf(),
            objc.autorelease_pool@ == old(objc).autorelease_pool@,
            n == size / 16,
            i <= n,
            cfstrings_ok(m0, base, size),
            mem@.len() == m0.len() + 4 * added_classes(c0, objc.classes@),
            forall|j: int|
                0 <= j < m0.len() && !in_isa_word(base, i as int, j) ==> #[trigger] mem@[j] == m0[j],
            forall|c: u32| #[trigger] c0.contains_key(c) ==> objc.classes@.contains_key(c)
                && objc.classes@[c] == c0[c],
            forall|c: u32| #[trigger] objc.classes@.contains_key(c) ==> c0.contains_key(c) || c
                == 4 || c == 5,
            forall|c: u32| #[trigger] objc.classes@.contains_key(c) && !c0.contains_key(c) ==> m0.len() <= objc.classes@[c],
            forall|x: u32|
                #[trigger] objc.objects@.contains_key(x) <==> (o0.contains_key(x) || exists|k: int|
                    0 <= k < i && x == cf_ptr(base, k)),
            forall|x: u32|
                o0.contains_key(x) && !(exists|k: int| 0 <= k < i && x == cf_ptr(base, k))
                    ==> #[trigger] objc.objects@[x] == o0[x],
            forall|k: int|
                0 <= k < i ==> {
                    let p = #[trigger] cf_ptr(base, k);
                    let rec = objc.objects@[p as u32];
                    &&& rec.class == cf_class(m0, p)
                    &&& rec.is_static
                    &&& rec.refcount == 0
                    &&& rec.host matches HostObject::Str(h) && h@ == cf_data(m0, p)
                    &&& objc.classes@.contains_key(crate::objc::class_code(rec.class))
                    &&& le_u32(mem@, p) == objc.classes@[crate::objc::class_code(rec.class)]
                },
        decreases n - i,
    {
        let ghost pk = cf_ptr(base, i as int);
        assert(16 * i + 16 <= size) by (nonlinear_arith)
            requires
                i < n,
                n == size / 16,
        ;
        let p: u32 = base + 16 * i;
        assert(p == pk);
        proof {
            assert forall|t: int| 0 <= t < 16 implies #[trigger] mem@[p + t] == m0[p + t] by {
                lemma_cf_offsets(base, i as int, t);
            }
            mem.lemma_len_bound();
        }
        let flags = mem.read_u32(p + 4);
        let bytes = mem.read_u32(p + 8);
        let length = mem.read_u32(p + 12);
        assert(flags == cf_flags(m0, pk));
        assert(bytes == cf_bytes(m0, pk));
        assert(length == cf_length(m0, pk));
        let data_len: u32 = if flags == CFSTR_UTF8_FLAGS {
            length
        } else {
            length * 2
        };
        let data = mem.bytes_at(bytes, data_len);
        proof {
            assert(data@ =~= m0.subrange(bytes as int, bytes + data_len)) by {
                assert forall|j: int| bytes <= j < bytes + data_len implies mem@[j] == m0[j] by {
                    assert(!in_isa_word(base, i as int, j));
                }
            }
        }
        let (class, host) = if flags == CFSTR_UTF8_FLAGS {
            (ClassId::ConstantStringUtf8, StringHostObject::Utf8(utf8_lossy(data.as_slice())))
        } else {
            (ClassId::ConstantStringUtf16, StringHostObject::Utf16(utf16_from_bytes(data.as_slice(), false)))
        };
        let ghost mid_mem = mem@;
        objc.register_static_object(p, class, HostObject::Str(host));
        let isa = objc.get_known_class(class, mem);
        let ghost pre_write = mem@;
        mem.write_u32(p, isa);
        proof {
            assert forall|j: int|
                0 <= j < m0.len() && !in_isa_word(base, i + 1, j) implies #[trigger] mem@[j] == m0[j] by {
                if p <= j < p + 4 {
                    lemma_cf_offsets(base, i as int, j - p);
                }
                assert(!in_isa_word(base, i as int, j));
            }
            assert forall|k: int| 0 <= k < i + 1 implies {
                let q = #[trigger] cf_ptr(base, k);
                let rec = objc.objects@[q as u32];
                &&& rec.class == cf_class(m0, q)
                &&& rec.is_static
                &&& rec.refcount == 0
                &&& rec.host matches HostObject::Str(h) && h@ == cf_data(m0, q)
                &&& objc.classes@.contains_key(crate::objc::class_code(rec.class))
                &&& le_u32(mem@, q) == objc.classes@[crate::objc::class_code(rec.class)]
            } by {
                if k < i {
                    let q = cf_ptr(base, k);
                    lemma_cf_offsets(base, k, 0);
                    assert(q != p) by {
                        lemma_cf_offsets(base, i as int, 0);
                    }
                    assert forall|t: int| 0 <= t < 4 implies #[trigger] mem@[q + t] == pre_write[q + t] by {
                        lemma_cf_offsets(base, k, t);
                        lemma_cf_offsets(base, i as int, 0);
                    }
                }
            }
            assert forall|x: u32| #[trigger] objc.objects@.contains_key(x) <==> (o0.contains_key(x)
                || exists|k: int| 0 <= k < i + 1 && x == cf_ptr(base, k)) by {
                if x == p {
                    assert(x == cf_ptr(base, i as int));
                }
            }
        }
        i = i + 1;
    }
}

// ---------------------------------------------------------------------
// Replacing occurrences
// ---------------------------------------------------------------------

/// Two code units are the same, or (ignoring case) have the same
/// lowercase mapping as chars.
pub open spec fn units_match(a: u16, b: u16, case_insensitive: bool) -> bool {
    if case_insensitive {
        lowercase_of((a as u32) as char) == lowercase_of((b as u32) as char)
    } else {
        a == b
    }
}

/// Whether `p[j..]` matches `s` from `i + j`: `None` where a surrogate
/// is compared ignoring case (the comparison stops the emulator there).
pub open spec fn prefix_at(s: Seq<u16>, i: int, p: Seq<u16>, j: int, case_insensitive: bool) -> Option<bool>
    decreases p.len() - j,
{
    if j >= p.len() || j < 0 {
        Some(true)
    } else if i + j >= s.len() {
        Some(false)
    } else if case_insensitive && (is_surrogate(s[i + j]) || is_surrogate(p[j])) {
        None
    } else if units_match(s[i + j], p[j], case_insensitive) {
        prefix_at(s, i, p, j + 1, case_insensitive)
    } else {
        Some(false)
    }
}

proof fn lemma_prefix_at_fits(s: Seq<u16>, i: int, p: Seq<u16>, j: int, ci: bool)
    requires
        0 <= j <= p.len(),
        0 <= i,
        i + j <= s.len(),
        prefix_at(s, i, p, j, ci) == Some(true),
    ensures
        i + p.len() <= s.len(),
    decreases p.len() - j,
{
    if j < p.len() {
        lemma_prefix_at_fits(s, i, p, j + 1, ci);
    }
}

/// `s` from `i` with each occurrence of `p` (found left to right, not
/// overlapping) replaced by `r`; `None` where the search would stop the
/// emulator.
pub open spec fn replaced(s: Seq<u16>, i: int, p: Seq<u16>, r: Seq<u16>, case_insensitive: bool) -> Option<Seq<u16>>
    decreases s.len() + 1 - i,
{
    if i < 0 || i > s.len() || p.len() == 0 {
        Some(seq![])
    } else {
        match prefix_at(s, i, p, 0, case_insensitive) {
            None => None,
            Some(true) => if i + p.len() <= s.len() {
                match replaced(s, i + p.len(), p, r, case_insensitive) {
                    Some(rest) => Some(r + rest),
                    None => None,
                }
            } else {
                Some(seq![])
            },
            Some(false) => if i == s.len() {
                Some(seq![])
            } else {
                match replaced(s, i + 1, p, r, case_insensitive) {
                    Some(rest) => Some(seq![s[i]] + rest),
                    None => None,
                }
            },
        }
    }
}

/// Where `prefix` matches `s` at `from`, the position just after it.
pub fn strip_prefix(s: &[u16], from: usize, prefix: &[u16], case_insensitive: bool) -> (r: Option<usize>)
    requires
        from <= s@.len(),
        prefix_at(s@, from as int, prefix@, 0, case_insensitive) is Some,
    ensures
        prefix_at(s@, from as int, prefix@, 0, case_insensitive) == Some(true) ==> (r matches Some(e) && e == from + prefix@.len()),
        prefix_at(s@, from as int, prefix@, 0, case_insensitive) == Some(false) ==> r is None,
        r matches Some(e) ==> e <= s@.len(),
{
    let mut j: usize = 0;
    while j < prefix.len()
        invariant
            from <= s.len(),
            from + j <= s.len(),
            j <= prefix@.len(),
            prefix_at(s@, from as int, prefix@, j as int, case_insensitive) == prefix_at(
                s@,
                from as int,
                prefix@,
                0,
                case_insensitive,
            ),
            prefix_at(s@, from as int, prefix@, 0, case_insensitive) is Some,
            from + j <= s@.len(),
        decreases prefix@.len() - j,
    {
        if from + j >= s.len() {
            return None;
        }
        let a = s[from + j];
        let b = prefix[j];
        let same = if case_insensitive {
            match (char::from_u32(a as u32), char::from_u32(b as u32)) {
                (Some(ca), Some(cb)) => {
                    proof {
                        vstd::utf8::char_u32_cast(ca, a as u32);
                        vstd::utf8::char_u32_cast(cb, b as u32);
                    }
                    same_lowercase(ca, cb)
                },
                _ => {
                    proof {
                        assert(is_surrogate(a) || is_surrogate(b));
                        assert(prefix_at(s@, from as int, prefix@, j as int, case_insensitive) is None);
                    }
                    return None;
                },
            }
        } else {
            a == b
        };
        if !same {
            return None;
        }
        j = j + 1;
    }
    proof {
        lemma_prefix_at_fits(s@, from as int, prefix@, 0, case_insensitive);
    }
    Some(from + prefix.len())
}

/// The copy of a string object that `copy` makes: an immutable string is
/// shared (one more reference); a mutable one is copied into a new string.
pub open spec fn copy_shares(class: ClassId) -> bool {
    class != ClassId::NSMutableString
}

/// What `string_by_replacing_occurrences_inner` leaves, from `old` to
/// `new`, with result `r`.
pub open spec fn replacing_done(
    old: Environment,
    new: Environment,
    source: id,
    target: id,
    replacement: id,
    options: NSUInteger,
    r: id,
) -> bool {
    &&& (units_of(string_data(old, target)).len() == 0 && copy_shares(old.objc.objects@[source].class)
            ==> r == source && new.objc.objects@ == crate::objc::retained(old.objc.objects@, source)
            && new.mem == old.mem)
    &&& new.objc.autorelease_pool@ == old.objc.autorelease_pool@.push(r)
    &&& (units_of(string_data(old, target)).len() == 0 && !copy_shares(old.objc.objects@[source].class)
            ==> {
            &&& r == old.mem@.len()
            &&& !old.objc.objects@.contains_key(r)
            &&& new.objc.objects@.dom() == old.objc.objects@.dom().insert(r)
            &&& forall|x: u32| #[trigger] old.objc.objects@.contains_key(x) ==> new.objc.objects@[x] == old.objc.objects@[x]
            &&& new.objc.objects@[r].class == ClassId::NSString
            &&& new.objc.objects@[r].refcount == 1
            &&& !new.objc.objects@[r].is_static
            &&& new.objc.objects@[r].host is Str
            &&& string_data(new, r) == string_data(old, source)
        })
    &&& (units_of(string_data(old, target)).len() > 0 ==> {
            &&& r == old.mem@.len()
            &&& !old.objc.objects@.contains_key(r)
            &&& new.objc.objects@.dom() == old.objc.objects@.dom().insert(r)
            &&& forall|x: u32| #[trigger] old.objc.objects@.contains_key(x) ==> new.objc.objects@[x] == old.objc.objects@[x]
            &&& new.objc.objects@[r].class == ClassId::NSString
            &&& new.objc.objects@[r].refcount == 1
            &&& !new.objc.objects@[r].is_static
            &&& new.objc.objects@[r].host is Str
            &&& Some(string_data(new, r)) == match replaced(
                units_of(string_data(old, source)),
                0,
                units_of(string_data(old, target)),
                units_of(string_data(old, replacement)),
                options == NSCaseInsensitiveSearch,
            ) {
                Some(u) => Some(StrView::Utf16(u)),
                None => None,
            }
        })
    &&& (new.framework_state == old.framework_state)
}

/// A new string: `source` with each occurrence of `target` replaced by
/// `replacement` (options: 0, or case-insensitive). With an empty target,
/// a copy of `source` (an immutable source is shared, with one more
/// reference). The result is handed to the autorelease pool.
pub fn string_by_replacing_occurrences_inner(
    env: &mut Environment,
    source: id,
    target: id,
    replacement: id,
    options: NSUInteger,
) -> (r: id)
    requires
        old(env).wf(),
        old(env).mem@.len() + 4 <= u32::MAX,
        is_string(*old(env), source),
        is_string(*old(env), target),
        is_string(*old(env), replacement),
        options == 0 || options == NSCaseInsensitiveSearch,
        units_of(string_data(*old(env), target)).len() == 0 && copy_shares(old(env).objc.objects@[source].class)
            && !old(env).objc.objects@[source].is_static ==> old(env).objc.objects@[source].refcount < u32::MAX,
        replaced(
            units_of(string_data(*old(env), source)),
            0,
            units_of(string_data(*old(env), target)),
            units_of(string_data(*old(env), replacement)),
            options == NSCaseInsensitiveSearch,
        ) is Some,
    ensures
        final(env).wf(),
        replacing_done(*old(env), *final(env), source, target, replacement, options, r),
{
    let src = match env.objc.host_of(source) {
        HostObject::Str(h) => h.code_units(),
        _ => Vec::new(),
    };
    let tgt = match env.objc.host_of(target) {
        HostObject::Str(h) => h.code_units(),
        _ => Vec::new(),
    };
    let rep = match env.objc.host_of(replacement) {
        HostObject::Str(h) => h.code_units(),
        _ => Vec::new(),
    };
    if tgt.len() == 0 {
        let class = env.objc.class_of(source);
        if class != ClassId::NSMutableString {
            crate::objc::retain(&mut env.objc, source);
            return crate::objc::autorelease(&mut env.objc, source);
        }
        let host = match env.objc.host_of(source) {
            HostObject::Str(StringHostObject::Utf8(s)) => StringHostObject::Utf8(s.clone()),
            HostObject::Str(StringHostObject::Utf16(u)) => StringHostObject::Utf16(u.clone()),
            _ => StringHostObject::Utf8(String::new()),
        };
        let o = env.new_object(ClassId::NSString, HostObject::Str(host));
        assert(env.objc.objects@.dom() =~= old(env).objc.objects@.dom().insert(o));
        return crate::objc::autorelease(&mut env.objc, o);
    }
    let case_insensitive = options == NSCaseInsensitiveSearch;
    let ghost s = src@;
    let ghost p = tgt@;
    let ghost rp = rep@;
    let mut result: Vec<u16> = Vec::new();
    let mut i: usize = 0;
    assert(Seq::<u16>::empty() + replaced(s, 0, p, rp, case_insensitive)->0 =~= replaced(s, 0, p, rp, case_insensitive)->0);
    loop
        invariant_except_break
            i <= s.len(),
            replaced(s, i as int, p, rp, case_insensitive) is Some,
            replaced(s, 0, p, rp, case_insensitive) == Some(result@ + replaced(s, i as int, p, rp, case_insensitive)->0),
        invariant
            s == src@,
            p == tgt@,
            rp == rep@,
            p.len() > 0,
        ensures
            replaced(s, 0, p, rp, case_insensitive) == Some(result@),
        decreases s.len() + 1 - i,
    {
        proof {
            assert(prefix_at(s, i as int, p, 0, case_insensitive) is Some);
        }
        match strip_prefix(src.as_slice(), i, tgt.as_slice(), case_insensitive) {
            Some(ni) => {
                proof {
                    assert(prefix_at(s, i as int, p, 0, case_insensitive) == Some(true));
                    assert(ni == i + p.len());
                    assert(replaced(s, i as int, p, rp, case_insensitive) == match replaced(s, ni as int, p, rp, case_insensitive) {
                        Some(rest) => Some(rp + rest),
                        None => None,
                    });
                }
                let ghost rest = replaced(s, ni as int, p, rp, case_insensitive)->0;
                let mut k: usize = 0;
                let ghost before = result@;
                while k < rep.len()
                    invariant
                        k <= rep@.len(),
                        result@ == before + rep@.subrange(0, k as int),
                    decreases rep@.len() - k,
                {
                    result.push(rep[k]);
                    k = k + 1;
                    assert(result@ =~= before + rep@.subrange(0, k as int));
                }
                assert(rep@.subrange(0, rep@.len() as int) =~= rep@);
                assert(before + (rp + rest) =~= result@ + rest);
                i = ni;
            },
            None => {
                if i < src.len() {
                    proof {
                        assert(prefix_at(s, i as int, p, 0, case_insensitive) == Some(false));
                        assert(replaced(s, i as int, p, rp, case_insensitive) == match replaced(s, i + 1, p, rp, case_insensitive) {
                            Some(rest) => Some(seq![s[i as int]] + rest),
                            None => None,
                        });
                    }
                    let ghost rest = replaced(s, i + 1, p, rp, case_insensitive)->0;
                    let ghost before = result@;
                    result.push(src[i]);
                    assert(before + (seq![s[i as int]] + rest) =~= result@ + rest);
                    i = i + 1;
                } else {
                    assert(result@ + Seq::<u16>::empty() =~= result@);
                    break;
                }
            },
        }
    }
    let o = env.new_object(ClassId::NSString, HostObject::Str(StringHostObject::Utf16(result)));
    assert(env.objc.objects@.dom() =~= old(env).objc.objects@.dom().insert(o));
    crate::objc::autorelease(&mut env.objc, o)
}

/// No code unit is a surrogate.
pub open spec fn no_surrogates(u: Seq<u16>) -> bool {
    forall|i: int| 0 <= i < u.len() ==> !is_surrogate(#[trigger] u[i])
}

proof fn lemma_prefix_at_some(s: Seq<u16>, i: int, p: Seq<u16>, j: int, ci: bool)
    requires
        0 <= i,
        !ci || (no_surrogates(s) && no_surrogates(p)),
    ensures
        prefix_at(s, i, p, j, ci) is Some,
    decreases p.len() - j,
{
    if !(j >= p.len() || j < 0) && i + j < s.len() {
        if ci {
            assert(!is_surrogate(s[i + j]));
            assert(!is_surrogate(p[j]));
        }
        lemma_prefix_at_some(s, i, p, j + 1, ci);
    }
}

proof fn lemma_replaced_some(s: Seq<u16>, i: int, p: Seq<u16>, r: Seq<u16>, ci: bool)
    requires
        !ci || (no_surrogates(s) && no_surrogates(p)),
    ensures
        replaced(s, i, p, r, ci) is Some,
    decreases s.len() + 1 - i,
{
    if !(i < 0 || i > s.len() || p.len() == 0) {
        lemma_prefix_at_some(s, i, p, 0, ci);
        match prefix_at(s, i, p, 0, ci) {
            Some(true) => {
                if i + p.len() <= s.len() {
                    lemma_replaced_some(s, i + p.len(), p, r, ci);
                }
            },
            _ => {
                if i < s.len() {
                    lemma_replaced_some(s, i + 1, p, r, ci);
                }
            },
        }
    }
}

/// Whether any code unit is a surrogate.
fn has_surrogate(u: &[u16]) -> (r: bool)
    ensures
        r == !no_surrogates(u@),
{
    let mut i: usize = 0;
    while i < u.len()
        invariant
            i <= u@.len(),
            forall|k: int| 0 <= k < i ==> !is_surrogate(#[trigger] u@[k]),
        decreases u@.len() - i,
    {
        if 0xD800 <= u[i] && u[i] <= 0xDFFF {
            return true;
        }
        i = i + 1;
    }
    false
}

/// The code units of a string object.
fn units_of_string(env: &Environment, o: id) -> (v: Vec<u16>)
    requires
        is_string(*env, o),
    ensures
        v@ == units_of(string_data(*env, o)),
{
    match env.objc.host_of(o) {
        HostObject::Str(h) => h.code_units(),
        _ => Vec::new(),
    }
}

/// `stringByReplacingOccurrencesOfString:withString:options:` where the
/// comparison ignoring case cannot be sure to run to its end: with
/// `NSCaseInsensitiveSearch`, strings of which the source or the target
/// holds a surrogate are refused (`None`, nothing changed); otherwise the
/// replacement is made as `string_by_replacing_occurrences_inner` makes
/// it.
pub fn string_by_replacing_occurrences(
    env: &mut Environment,
    source: id,
    target: id,
    replacement: id,
    options: NSUInteger,
) -> (r: Option<id>)
    requires
        old(env).wf(),
        old(env).mem@.len() + 4 <= u32::MAX,
        is_string(*old(env), source),
        is_string(*old(env), target),
        is_string(*old(env), replacement),
        options == 0 || options == NSCaseInsensitiveSearch,
        units_of(string_data(*old(env), target)).len() == 0 && copy_shares(old(env).objc.objects@[source].class)
            && !old(env).objc.objects@[source].is_static ==> old(env).objc.objects@[source].refcount < u32::MAX,
    ensures
        final(env).wf(),
        r is None <==> (options == NSCaseInsensitiveSearch && !(no_surrogates(
            units_of(string_data(*old(env), source)),
        ) && no_surrogates(units_of(string_data(*old(env), target))))),
        r is None ==> *final(env) == *old(env),
        r matches Some(o) ==> replacing_done(*old(env), *final(env), source, target, replacement, options, o),
{
    if options == NSCaseInsensitiveSearch {
        let src = units_of_string(env, source);
        let tgt = units_of_string(env, target);
        if has_surrogate(src.as_slice()) || has_surrogate(tgt.as_slice()) {
            return None;
        }
    }
    proof {
        lemma_replaced_some(
            units_of(string_data(*old(env), source)),
            0,
            units_of(string_data(*old(env), target)),
            units_of(string_data(*old(env), replacement)),
            options == NSCaseInsensitiveSearch,
        );
    }
    Some(string_by_replacing_occurrences_inner(env, source, target, replacement, options))
}

// ---------------------------------------------------------------------
// Data from a string
// ---------------------------------------------------------------------

/// Chars as single bytes; where `lossy`, chars above U+00FF become `?`.
pub open spec fn latin1_bytes(cs: Seq<char>, lossy: bool) -> Seq<u8> {
    cs.map_values(|c: char| if (c as u32) <= 0xFF { (c as u32) as u8 } else { 0x3Fu8 })
}

/// The bytes of the data made from text `cs` in encoding `e`: `None`
/// where a char does not fit a one-byte encoding and `lossy` is not set.
/// Other encodings are written as UTF-8.
pub open spec fn data_bytes_for(cs: Seq<char>, e: NSUInteger, lossy: bool) -> Option<Seq<u8>> {
    if e == NSUTF16LittleEndianStringEncoding || e == NSUTF16StringEncoding {
        Some(le16_bytes(utf16_encode(cs)))
    } else if e == NSUTF16BigEndianStringEncoding {
        Some(be16_bytes(utf16_encode(cs)))
    } else if e == NSUTF32LittleEndianStringEncoding {
        Some(utf32_bytes(cs, false))
    } else if e == NSUTF32BigEndianStringEncoding || e == NSUTF32StringEncoding {
        Some(utf32_bytes(cs, true))
    } else if e == NSASCIIStringEncoding || e == NSISOLatin1StringEncoding || e
        == NSMacOSRomanStringEncoding {
        if !lossy && exists|i: int| 0 <= i < cs.len() && (cs[i] as u32) > 0xFF {
            None
        } else {
            Some(latin1_bytes(cs, lossy))
        }
    } else {
        Some(encode_utf8(cs))
    }
}

fn latin1_bytes_exec(cs: &[char], lossy: bool) -> (v: Vec<u8>)
    ensures
        v@ == latin1_bytes(cs@, lossy),
{
    let mut v: Vec<u8> = Vec::new();
    let mut i: usize = 0;
    while i < cs.len()
        invariant
            i <= cs@.len(),
            v@ == latin1_bytes(cs@.subrange(0, i as int), lossy),
        decreases cs@.len() - i,
    {
        let c = cs[i] as u32;
        let b: u8 = if c <= 0xFF {
            c as u8
        } else {
            0x3F
        };
        v.push(b);
        i = i + 1;
        assert(v@ =~= latin1_bytes(cs@.subrange(0, i as int), lossy));
    }
    assert(cs@.subrange(0, cs@.len() as int) =~= cs@);
    v
}

/// A new data object with the text of `this` in `encoding` (in fresh
/// guest memory); nil where a char does not fit a one-byte encoding and
/// `lossy` is not set. The new object is handed to the autorelease pool.
pub fn data_using_encoding_lossy_inner(env: &mut Environment, this: id, encoding: NSUInteger, lossy: bool) -> (r: id)
    requires
        old(env).wf(),
        is_string(*old(env), this),
        text_of(string_data(*old(env), this)) is Some,
        data_bytes_for(text_of(string_data(*old(env), this))->0, encoding, lossy) matches Some(b)
            ==> old(env).mem@.len() + b.len() + 1 + 4 <= u32::MAX,
    ensures
        final(env).wf(),
        final(env).framework_state == old(env).framework_state,
        match data_bytes_for(text_of(string_data(*old(env), this))->0, encoding, lossy) {
            None => r == nil && *final(env) == *old(env),
            Some(b) => {
                let buf = old(env).mem@.len();
                let size = if b.len() > 0 { b.len() } else { 1 };
                &&& r == buf + size
                &&& !old(env).objc.objects@.contains_key(r)
                &&& final(env).objc.objects@ == old(env).objc.objects@.insert(
                    r,
                    ObjectRecord {
                        class: ClassId::NSData,
                        host: HostObject::Data { bytes: buf as u32, length: b.len() as u32 },
                        refcount: 1,
                        is_static: false,
                    },
                )
                &&& final(env).mem@ == spliced(old(env).mem@ + Seq::new(size as nat, |i: int| 0u8), buf as int, b) + Seq::new(4, |i: int| 0u8)
                &&& final(env).objc.classes == old(env).objc.classes
                &&& final(env).objc.autorelease_pool@ == old(env).objc.autorelease_pool@.push(r)
            },
        },
{
    let string = to_rust_string(env, this);
    let cs = crate::unicode::chars_of(string.as_str());
    let bytes: Vec<u8> = if encoding == NSUTF16LittleEndianStringEncoding || encoding
        == NSUTF16StringEncoding {
        let u = crate::unicode::utf16_encode_chars(cs.as_slice());
        le16_bytes_exec(u.as_slice(), false)
    } else if encoding == NSUTF16BigEndianStringEncoding {
        let u = crate::unicode::utf16_encode_chars(cs.as_slice());
        le16_bytes_exec(u.as_slice(), true)
    } else if encoding == NSUTF32LittleEndianStringEncoding {
        utf32_bytes_exec(cs.as_slice(), false)
    } else if encoding == NSUTF32BigEndianStringEncoding || encoding == NSUTF32StringEncoding {
        utf32_bytes_exec(cs.as_slice(), true)
    } else if encoding == NSASCIIStringEncoding || encoding == NSISOLatin1StringEncoding
        || encoding == NSMacOSRomanStringEncoding {
        if !lossy && !all_latin1(cs.as_slice()) {
            return nil;
        }
        latin1_bytes_exec(cs.as_slice(), lossy)
    } else {
        crate::unicode::utf8_bytes(string.as_str())
    };
    let length = bytes.len() as u32;
    let alloc_size: u32 = if length > 0 {
        length
    } else {
        1
    };
    proof {
        env.mem.lemma_len_bound();
    }
    let buf = env.mem.allocate(alloc_size);
    if length > 0 {
        env.mem.write_bytes(buf, bytes.as_slice());
    }
    proof {
        if length == 0 {
            assert(bytes@ =~= Seq::<u8>::empty());
            assert(spliced(old(env).mem@ + Seq::new(1, |i: int| 0u8), buf as int, bytes@) =~= env.mem@);
        }
    }
    let o = env.new_object(ClassId::NSData, HostObject::Data { bytes: buf, length });
    crate::objc::autorelease(&mut env.objc, o)
}

} // verus!
