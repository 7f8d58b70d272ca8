//! Operations of `NSString` that work on a string's UTF-16 code units:
//! splitting, trimming, and reading an integer.
use vstd::prelude::*;
use vstd::string::*;
use vstd::utf8::encode_utf8;
use crate::frameworks::foundation::ns_character_set::CharacterSetHostObject;
use crate::frameworks::foundation::{NSRange, NSUInteger};
use crate::frameworks::foundation::ns_string::{
    NSASCIIStringEncoding, NSISOLatin1StringEncoding, NSUTF16BigEndianStringEncoding,
    NSUTF16LittleEndianStringEncoding, NSUTF16StringEncoding, NSUTF32BigEndianStringEncoding,
    NSUTF32LittleEndianStringEncoding, NSUTF32StringEncoding, NSUTF8StringEncoding,
    NSWindowsCP1252StringEncoding,
};
use crate::unicode::{chars_of, string_from_chars};
use crate::frameworks::foundation::ns_string_compare::{
    digit_run_end, digits_value, is_digit_unit, lemma_digit_run, lemma_digits_value_grows,
};

verus! {

/// `sep` stands in `s` at `i`.
pub open spec fn sep_at(s: Seq<u16>, sep: Seq<u16>, i: int) -> bool {
    0 <= i && i + sep.len() <= s.len() && s.subrange(i, i + sep.len()) == sep
}

/// The components of `s[i..]` split at each occurrence of `sep` (found
/// left to right), where the first of them begins with `cur`.
pub open spec fn split_from(s: Seq<u16>, sep: Seq<u16>, i: int, cur: Seq<u16>) -> Seq<Seq<u16>>
    decreases s.len() - i,
{
    if sep.len() > 0 && sep_at(s, sep, i) {
        seq![cur] + split_from(s, sep, i + sep.len(), seq![])
    } else if 0 <= i < s.len() {
        split_from(s, sep, i + 1, cur.push(s[i]))
    } else {
        seq![cur]
    }
}

/// The components of `s` separated by `sep`: `s` itself where there is no
/// separator or it is empty.
pub open spec fn components(s: Seq<u16>, sep: Option<Seq<u16>>) -> Seq<Seq<u16>> {
    match sep {
        Some(sep) => if sep.len() > 0 {
            split_from(s, sep, 0, seq![])
        } else {
            seq![s]
        },
        None => seq![s],
    }
}

/// Whether `sep` stands in `s` at `i`.
fn sep_at_exec(s: &[u16], sep: &[u16], i: usize) -> (r: bool)
    requires
        i <= s@.len(),
    ensures
        r == sep_at(s@, sep@, i as int),
{
    if sep.len() > s.len() - i {
        return false;
    }
    let mut k: usize = 0;
    while k < sep.len()
        invariant
            i + sep@.len() <= s.len(),
            k <= sep@.len(),
            forall|m: int| 0 <= m < k ==> s@[i + m] == sep@[m],
        decreases sep@.len() - k,
    {
        if s[i + k] != sep[k] {
            assert(s@.subrange(i as int, i + sep@.len())[k as int] != sep@[k as int]);
            return false;
        }
        k = k + 1;
    }
    assert(s@.subrange(i as int, i + sep@.len()) =~= sep@);
    true
}

/// The one component that is the whole string.
fn whole(s: &[u16]) -> (v: Vec<Vec<u16>>)
    ensures
        v@.len() == 1,
        v@[0]@ == s@,
{
    let mut v: Vec<Vec<u16>> = Vec::new();
    v.push(vstd::slice::slice_to_vec(s));
    v
}

/// The separator's code units, where there is one.
pub open spec fn sep_view(separator: Option<&[u16]>) -> Option<Seq<u16>> {
    match separator {
        Some(x) => Some(x@),
        None => None,
    }
}

/// `componentsSeparatedByString:` on code units: the pieces of `s` between
/// the occurrences of `separator`, found left to right; `s` whole where
/// there is no separator (`nil`) or it is empty.
pub fn components_separated_by(s: &[u16], separator: Option<&[u16]>) -> (r: Vec<Vec<u16>>)
    ensures
        r@.len() == components(s@, sep_view(separator)).len(),
        forall|k: int| 0 <= k < r@.len() ==> #[trigger] r@[k]@ == components(s@, sep_view(separator))[k],
{
    let sep = match separator {
        None => return whole(s),
        Some(sep) => sep,
    };
    if sep.len() == 0 {
        return whole(s);
    }
    let mut parts: Vec<Vec<u16>> = Vec::new();
    let mut current: Vec<u16> = Vec::new();
    let mut i: usize = 0;
    while i < s.len()
        invariant
            separator == Some(sep),
            sep@.len() > 0,
            i <= s@.len(),
            forall|k: int| 0 <= k < parts@.len() ==> #[trigger] parts@[k]@ == components(s@, Some(sep@))[k],
            parts@.len() + split_from(s@, sep@, i as int, current@).len() == components(s@, Some(sep@)).len(),
            forall|k: int| 0 <= k < split_from(s@, sep@, i as int, current@).len() ==>
                #[trigger] split_from(s@, sep@, i as int, current@)[k] == components(s@, Some(sep@))[parts@.len() + k],
        decreases s@.len() - i,
    {
        if sep_at_exec(s, sep, i) {
            let ghost old_parts = parts@;
            let ghost rest = split_from(s@, sep@, i + sep@.len(), seq![]);
            assert(split_from(s@, sep@, i as int, current@) == seq![current@] + rest);
            let piece = current;
            current = Vec::new();
            parts.push(piece);
            assert forall|k: int| 0 <= k < parts@.len() implies #[trigger] parts@[k]@ == components(s@, Some(sep@))[k] by {
                if k == old_parts.len() {
                    assert((seq![piece@] + rest)[0] == piece@);
                }
            }
            assert forall|k: int| 0 <= k < rest.len() implies #[trigger] rest[k] == components(s@, Some(sep@))[parts@.len() + k] by {
                assert((seq![piece@] + rest)[k + 1] == rest[k]);
            }
            i = i + sep.len();
        } else {
            let ghost before = current@;
            current.push(s[i]);
            assert(split_from(s@, sep@, i as int, before) == split_from(s@, sep@, i + 1, current@));
            i = i + 1;
        }
    }
    let ghost old_parts = parts@;
    assert(split_from(s@, sep@, i as int, current@) == seq![current@]);
    let piece = current;
    parts.push(piece);
    assert forall|k: int| 0 <= k < parts@.len() implies #[trigger] parts@[k]@ == components(s@, Some(sep@))[k] by {
        if k == old_parts.len() {
            assert(seq![piece@][0] == piece@);
        }
    }
    parts
}

// ---------------------------------------------------------------------
// Trimming
// ---------------------------------------------------------------------

/// The first position from `i` on whose unit is not in `set`.
pub open spec fn trim_start(s: Seq<u16>, set: CharacterSetHostObject, i: int) -> int
    decreases s.len() - i,
{
    if 0 <= i < s.len() && set.is_member(s[i]) {
        trim_start(s, set, i + 1)
    } else {
        i
    }
}

/// The end that is left when the units in `set` are taken off `s[lo..e]`
/// from the back.
pub open spec fn trim_end(s: Seq<u16>, set: CharacterSetHostObject, lo: int, e: int) -> int
    decreases e - lo,
{
    if lo < e && set.is_member(s[e - 1]) {
        trim_end(s, set, lo, e - 1)
    } else {
        e
    }
}

/// `stringByTrimmingCharactersInSet:` on code units: `s` without the
/// units in `set` at its start and at its end.
pub fn string_by_trimming(s: &[u16], set: &CharacterSetHostObject) -> (r: Vec<u16>)
    ensures
        ({
            let start = trim_start(s@, *set, 0);
            r@ == s@.subrange(start, trim_end(s@, *set, start, s@.len() as int))
        }),
{
    let mut res_start: usize = 0;
    while res_start < s.len() && set.character_is_member(s[res_start])
        invariant
            res_start <= s@.len(),
            trim_start(s@, *set, 0) == trim_start(s@, *set, res_start as int),
        decreases s@.len() - res_start,
    {
        res_start = res_start + 1;
    }
    let mut res_end: usize = s.len();
    while res_end > res_start && set.character_is_member(s[res_end - 1])
        invariant
            res_start <= res_end <= s@.len(),
            res_start == trim_start(s@, *set, 0),
            trim_end(s@, *set, res_start as int, s@.len() as int) == trim_end(s@, *set, res_start as int, res_end as int),
        decreases res_end,
    {
        res_end = res_end - 1;
    }
    let mut r: Vec<u16> = Vec::new();
    let mut k: usize = res_start;
    while k < res_end
        invariant
            res_start <= k <= res_end <= s@.len(),
            r@ == s@.subrange(res_start as int, k as int),
        decreases res_end - k,
    {
        r.push(s[k]);
        assert(r@ =~= s@.subrange(res_start as int, k + 1));
        k = k + 1;
    }
    r
}

// ---------------------------------------------------------------------
// Reading an integer
// ---------------------------------------------------------------------

/// The ASCII whitespace chars (space, tab, line feed, form feed, carriage
/// return).
pub open spec fn is_ascii_space_unit(u: u16) -> bool {
    u == 0x20 || u == 0x09 || u == 0x0A || u == 0x0C || u == 0x0D
}

/// The first position from `i` on that is not ASCII whitespace.
pub open spec fn skip_spaces(s: Seq<u16>, i: int) -> int
    decreases s.len() - i,
{
    if 0 <= i < s.len() && is_ascii_space_unit(s[i]) {
        skip_spaces(s, i + 1)
    } else {
        i
    }
}

/// `v` clamped to the range of `i32`.
pub open spec fn clamp_i32(v: int) -> i32 {
    if v < i32::MIN {
        i32::MIN
    } else if v > i32::MAX {
        i32::MAX
    } else {
        v as i32
    }
}

/// What `intValue` reads: after leading ASCII whitespace, an optional sign
/// and the decimal digits that follow it; no digits, or a number beyond
/// `i64`, read as 0; the value is clamped to `i32`.
pub open spec fn int_value_of(s: Seq<u16>) -> i32 {
    let p = skip_spaces(s, 0);
    let negative = p < s.len() && s[p] == 0x2D;
    let start = if p < s.len() && (s[p] == 0x2D || s[p] == 0x2B) { p + 1 } else { p };
    let e = digit_run_end(s, start);
    let magnitude = if e > start && digits_value(s, start, e) <= i64::MAX {
        digits_value(s, start, e)
    } else {
        0
    };
    clamp_i32(if negative { -magnitude } else { magnitude })
}

/// `intValue` on a string's code units.
pub fn int_value(s: &[u16]) -> (r: i32)
    ensures
        r == int_value_of(s@),
{
    let mut p: usize = 0;
    while p < s.len() && (s[p] == 0x20 || s[p] == 0x09 || s[p] == 0x0A || s[p] == 0x0C || s[p] == 0x0D)
        invariant
            p <= s@.len(),
            skip_spaces(s@, 0) == skip_spaces(s@, p as int),
        decreases s@.len() - p,
    {
        p = p + 1;
    }
    let negative = p < s.len() && s[p] == 0x2D;
    let start = if p < s.len() && (s[p] == 0x2D || s[p] == 0x2B) { p + 1 } else { p };
    proof {
        lemma_digit_run(s@, start as int);
    }
    let mut k: usize = start;
    let mut num: i64 = 0;
    let mut too_large = false;
    while k < s.len() && 0x30 <= s[k] && s[k] <= 0x39
        invariant
            start <= k <= s@.len(),
            digit_run_end(s@, start as int) == digit_run_end(s@, k as int),
            start <= digit_run_end(s@, start as int) <= s@.len(),
            forall|m: int| start <= m < digit_run_end(s@, start as int) ==> is_digit_unit(#[trigger] s@[m]),
            !too_large ==> num == digits_value(s@, start as int, k as int),
            too_large ==> digits_value(s@, start as int, digit_run_end(s@, start as int)) > i64::MAX,
            num >= 0,
        decreases s@.len() - k,
    {
        let d = (s[k] - 0x30) as i64;
        proof {
            lemma_digit_run(s@, k + 1);
        }
        if !too_large {
            if num > (i64::MAX - d) / 10 {
                proof {
                    assert(digits_value(s@, start as int, k + 1) == num * 10 + d);
                    lemma_digits_value_grows(s@, start as int, k + 1, digit_run_end(s@, start as int));
                }
                too_large = true;
            } else {
                num = num * 10 + d;
            }
        }
        k = k + 1;
    }
    let magnitude: i64 = if k > start && !too_large { num } else { 0 };
    let value: i64 = if negative { -magnitude } else { magnitude };
    if value < i32::MIN as i64 {
        i32::MIN
    } else if value > i32::MAX as i64 {
        i32::MAX
    } else {
        value as i32
    }
}

// ---------------------------------------------------------------------
// Percent escapes
// ---------------------------------------------------------------------

/// The bytes left as they are: ASCII letters and digits, and
/// `-_.~!*'();:@&=+$,/?%#`.
pub open spec fn unescaped_byte(b: u8) -> bool {
    ||| 0x30 <= b <= 0x39
    ||| 0x41 <= b <= 0x5A
    ||| 0x61 <= b <= 0x7A
    ||| b == 0x2D || b == 0x5F || b == 0x2E || b == 0x7E
    ||| b == 0x21 || b == 0x2A || b == 0x27 || b == 0x28 || b == 0x29 || b == 0x3B || b == 0x3A
    ||| b == 0x40 || b == 0x26 || b == 0x3D || b == 0x2B || b == 0x24 || b == 0x2C || b == 0x2F
    ||| b == 0x3F || b == 0x25 || b == 0x23
}

/// An uppercase hexadecimal digit.
pub open spec fn hex_digit(n: u8) -> char {
    if n < 10 {
        ((0x30 + n) as u8) as char
    } else {
        ((0x41 + n - 10) as u8) as char
    }
}

/// A byte as it stands in the escaped text: itself, or `%` and two
/// uppercase hexadecimal digits.
pub open spec fn escape_byte(b: u8) -> Seq<char> {
    if unescaped_byte(b) {
        seq![b as char]
    } else {
        seq!['%', hex_digit(b / 16), hex_digit(b % 16)]
    }
}

/// The escaped text of a byte string.
pub open spec fn escaped(bytes: Seq<u8>) -> Seq<char>
    decreases bytes.len(),
{
    if bytes.len() == 0 {
        seq![]
    } else {
        escaped(bytes.drop_last()) + escape_byte(bytes.last())
    }
}

fn hex_digit_exec(n: u8) -> (c: char)
    requires
        n < 16,
    ensures
        c == hex_digit(n),
{
    if n < 10 {
        (0x30 + n) as char
    } else {
        (0x41 + n - 10) as char
    }
}

/// `stringByAddingPercentEscapesUsingEncoding:`: the string's UTF-8 bytes
/// (whatever the encoding asked for), each left as it is or written as `%`
/// and two uppercase hexadecimal digits.
pub fn add_percent_escapes(s: &str) -> (r: String)
    ensures
        r@ == escaped(encode_utf8(s@)),
{
    let bytes = s.as_bytes();
    let mut out = String::new();
    let mut i: usize = 0;
    while i < bytes.len()
        invariant
            i <= bytes@.len(),
            out@ == escaped(bytes@.subrange(0, i as int)),
        decreases bytes@.len() - i,
    {
        let b = bytes[i];
        let ghost before = out@;
        let keep = (0x30 <= b && b <= 0x39) || (0x41 <= b && b <= 0x5A) || (0x61 <= b && b <= 0x7A)
            || b == 0x2D || b == 0x5F || b == 0x2E || b == 0x7E || b == 0x21 || b == 0x2A || b == 0x27
            || b == 0x28 || b == 0x29 || b == 0x3B || b == 0x3A || b == 0x40 || b == 0x26 || b == 0x3D
            || b == 0x2B || b == 0x24 || b == 0x2C || b == 0x2F || b == 0x3F || b == 0x25 || b == 0x23;
        if keep {
            out.push(b as char);
        } else {
            out.push('%');
            out.push(hex_digit_exec(b / 16));
            out.push(hex_digit_exec(b % 16));
        }
        proof {
            let pre = bytes@.subrange(0, i + 1);
            assert(pre.drop_last() =~= bytes@.subrange(0, i as int));
            assert(pre.last() == b);
            assert(out@ =~= before + escape_byte(b));
        }
        i = i + 1;
    }
    assert(bytes@.subrange(0, bytes@.len() as int) =~= bytes@);
    out
}

// ---------------------------------------------------------------------
// Other readings and pieces
// ---------------------------------------------------------------------

/// What `boolValue` skips at the start: ASCII whitespace, signs and zeros.
pub open spec fn bool_skipped(u: u16) -> bool {
    is_ascii_space_unit(u) || u == 0x2D || u == 0x2B || u == 0x30
}

/// The first position from `i` on that `boolValue` does not skip.
pub open spec fn bool_start(s: Seq<u16>, i: int) -> int
    decreases s.len() - i,
{
    if 0 <= i < s.len() && bool_skipped(s[i]) {
        bool_start(s, i + 1)
    } else {
        i
    }
}

/// The units that make a string true: `Y`, `y`, `T`, `t` and the digits
/// 1 to 9.
pub open spec fn true_unit(u: u16) -> bool {
    u == 0x59 || u == 0x79 || u == 0x54 || u == 0x74 || (0x31 <= u <= 0x39)
}

/// `boolValue` on code units: whether the first unit after leading
/// whitespace, signs and zeros is one of `YyTt123456789`.
pub fn bool_value(s: &[u16]) -> (r: bool)
    ensures
        r == (0 <= bool_start(s@, 0) < s@.len() && true_unit(s@[bool_start(s@, 0)])),
{
    let mut i: usize = 0;
    while i < s.len() && (s[i] == 0x20 || s[i] == 0x09 || s[i] == 0x0A || s[i] == 0x0C || s[i] == 0x0D || s[i] == 0x2D
        || s[i] == 0x2B || s[i] == 0x30)
        invariant
            i <= s@.len(),
            bool_start(s@, 0) == bool_start(s@, i as int),
        decreases s@.len() - i,
    {
        i = i + 1;
    }
    if i >= s.len() {
        return false;
    }
    let u = s[i];
    u == 0x59 || u == 0x79 || u == 0x54 || u == 0x74 || (0x31 <= u && u <= 0x39)
}

/// `isAbsolutePath` on code units: the path starts with `/` or `~`.
pub fn is_absolute_path(s: &[u16]) -> (r: bool)
    ensures
        r == (s@.len() > 0 && (s@[0] == 0x2F || s@[0] == 0x7E)),
{
    s.len() > 0 && (s[0] == 0x2F || s[0] == 0x7E)
}

/// The pieces of `s[i..]` between the units in `set`, the first of them
/// beginning with `cur`.
pub open spec fn split_by_set(s: Seq<u16>, set: CharacterSetHostObject, i: int, cur: Seq<u16>) -> Seq<Seq<u16>>
    decreases s.len() - i,
{
    if 0 <= i < s.len() {
        if set.is_member(s[i]) {
            seq![cur] + split_by_set(s, set, i + 1, seq![])
        } else {
            split_by_set(s, set, i + 1, cur.push(s[i]))
        }
    } else {
        seq![cur]
    }
}

/// `componentsSeparatedByCharactersInSet:` on code units: the pieces
/// between the units that belong to `set` (one more piece than there are
/// such units).
pub fn components_separated_by_set(s: &[u16], set: &CharacterSetHostObject) -> (r: Vec<Vec<u16>>)
    ensures
        r@.len() == split_by_set(s@, *set, 0, seq![]).len(),
        forall|k: int| 0 <= k < r@.len() ==> #[trigger] r@[k]@ == split_by_set(s@, *set, 0, seq![])[k],
{
    let ghost all = split_by_set(s@, *set, 0, seq![]);
    let mut parts: Vec<Vec<u16>> = Vec::new();
    let mut current: Vec<u16> = Vec::new();
    let mut i: usize = 0;
    while i < s.len()
        invariant
            all == split_by_set(s@, *set, 0, seq![]),
            i <= s@.len(),
            forall|k: int| 0 <= k < parts@.len() ==> #[trigger] parts@[k]@ == all[k],
            parts@.len() + split_by_set(s@, *set, i as int, current@).len() == all.len(),
            forall|k: int| 0 <= k < split_by_set(s@, *set, i as int, current@).len() ==>
                #[trigger] split_by_set(s@, *set, i as int, current@)[k] == all[parts@.len() + k],
        decreases s@.len() - i,
    {
        if set.character_is_member(s[i]) {
            let ghost old_parts = parts@;
            let ghost rest = split_by_set(s@, *set, i + 1, seq![]);
            assert(split_by_set(s@, *set, i as int, current@) == seq![current@] + rest);
            let piece = current;
            current = Vec::new();
            parts.push(piece);
            assert forall|k: int| 0 <= k < parts@.len() implies #[trigger] parts@[k]@ == all[k] by {
                if k == old_parts.len() {
                    assert((seq![piece@] + rest)[0] == piece@);
                }
            }
            assert forall|k: int| 0 <= k < rest.len() implies #[trigger] rest[k] == all[parts@.len() + k] by {
                assert((seq![piece@] + rest)[k + 1] == rest[k]);
            }
        } else {
            let ghost before = current@;
            current.push(s[i]);
            assert(split_by_set(s@, *set, i as int, before) == split_by_set(s@, *set, i + 1, current@));
        }
        i = i + 1;
    }
    let ghost old_parts = parts@;
    assert(split_by_set(s@, *set, i as int, current@) == seq![current@]);
    let piece = current;
    parts.push(piece);
    assert forall|k: int| 0 <= k < parts@.len() implies #[trigger] parts@[k]@ == all[k] by {
        if k == old_parts.len() {
            assert(seq![piece@][0] == piece@);
        }
    }
    parts
}

/// `substringWithRange:` on code units: the units in `range`; empty where
/// the range does not lie within the string.
pub fn substring_with_range(s: &[u16], range: NSRange) -> (r: Vec<u16>)
    ensures
        r@ == if range.location + range.length <= s@.len() {
            s@.subrange(range.location as int, range.location + range.length)
        } else {
            seq![]
        },
{
    let start = range.location as usize;
    let mut r: Vec<u16> = Vec::new();
    if start > s.len() || range.length as usize > s.len() - start {
        return r;
    }
    let end = start + range.length as usize;
    let mut k: usize = start;
    while k < end
        invariant
            start <= k <= end <= s@.len(),
            start == range.location,
            end == range.location + range.length,
            r@ == s@.subrange(start as int, k as int),
        decreases end - k,
    {
        r.push(s[k]);
        assert(r@ =~= s@.subrange(start as int, k + 1));
        k = k + 1;
    }
    r
}

// ---------------------------------------------------------------------
// Lengths in bytes
// ---------------------------------------------------------------------

/// The number of ASCII bytes.
pub open spec fn ascii_byte_count(b: Seq<u8>) -> nat
    decreases b.len(),
{
    if b.len() == 0 {
        0
    } else {
        ascii_byte_count(b.drop_last()) + if b.last() < 0x80 { 1nat } else { 0nat }
    }
}

/// Two bytes for each char of the Basic Multilingual Plane, four for each
/// other char.
pub open spec fn utf16_byte_count(cs: Seq<char>) -> nat
    decreases cs.len(),
{
    if cs.len() == 0 {
        0
    } else {
        utf16_byte_count(cs.drop_last()) + if (cs.last() as u32) <= 0xFFFF { 2nat } else { 4nat }
    }
}

/// The number of chars not above U+00FF.
pub open spec fn latin1_char_count(cs: Seq<char>) -> nat
    decreases cs.len(),
{
    if cs.len() == 0 {
        0
    } else {
        latin1_char_count(cs.drop_last()) + if (cs.last() as u32) <= 0xFF { 1nat } else { 0nat }
    }
}

pub open spec fn is_utf16_encoding(e: NSUInteger) -> bool {
    e == NSUTF16StringEncoding || e == NSUTF16BigEndianStringEncoding || e == NSUTF16LittleEndianStringEncoding
}

pub open spec fn is_utf32_encoding(e: NSUInteger) -> bool {
    e == NSUTF32StringEncoding || e == NSUTF32BigEndianStringEncoding || e == NSUTF32LittleEndianStringEncoding
}

/// What `lengthOfBytesUsingEncoding:` counts: UTF-8 bytes; ASCII bytes;
/// UTF-16 or UTF-32 bytes; for Latin-1 and Windows-1252 the chars they
/// can hold; UTF-8 bytes for any other encoding.
pub open spec fn length_of_bytes_spec(s: Seq<char>, encoding: NSUInteger) -> nat {
    if encoding == NSUTF8StringEncoding {
        encode_utf8(s).len()
    } else if encoding == NSASCIIStringEncoding {
        ascii_byte_count(encode_utf8(s))
    } else if is_utf16_encoding(encoding) {
        utf16_byte_count(s)
    } else if is_utf32_encoding(encoding) {
        s.len() * 4
    } else if encoding == NSISOLatin1StringEncoding || encoding == NSWindowsCP1252StringEncoding {
        latin1_char_count(s)
    } else {
        encode_utf8(s).len()
    }
}

proof fn lemma_utf16_byte_count_bound(cs: Seq<char>)
    ensures
        utf16_byte_count(cs) <= 4 * cs.len(),
    decreases cs.len(),
{
    if cs.len() > 0 {
        lemma_utf16_byte_count_bound(cs.drop_last());
    }
}

proof fn lemma_counts_bound(b: Seq<u8>, cs: Seq<char>)
    ensures
        ascii_byte_count(b) <= b.len(),
        latin1_char_count(cs) <= cs.len(),
    decreases b.len() + cs.len(),
{
    if b.len() > 0 {
        lemma_counts_bound(b.drop_last(), cs);
    } else if cs.len() > 0 {
        lemma_counts_bound(b, cs.drop_last());
    }
}

/// `lengthOfBytesUsingEncoding:`, cut to 32 bits as the result type is.
pub fn length_of_bytes(s: &str, encoding: NSUInteger) -> (r: NSUInteger)
    requires
        s@.len() * 4 <= usize::MAX,
    ensures
        r == length_of_bytes_spec(s@, encoding) as NSUInteger,
{
    if encoding == NSASCIIStringEncoding {
        let bytes = s.as_bytes();
        let mut n: usize = 0;
        let mut i: usize = 0;
        while i < bytes.len()
            invariant
                i <= bytes@.len(),
                bytes@ == encode_utf8(s@),
                n == ascii_byte_count(bytes@.subrange(0, i as int)),
            decreases bytes@.len() - i,
        {
            proof {
                lemma_counts_bound(bytes@.subrange(0, i as int), seq![]);
                assert(bytes@.subrange(0, i + 1).drop_last() =~= bytes@.subrange(0, i as int));
            }
            if bytes[i] < 0x80 {
                n = n + 1;
            }
            i = i + 1;
        }
        assert(bytes@.subrange(0, bytes@.len() as int) =~= bytes@);
        #[verifier::truncate]
        (n as NSUInteger)
    } else if encoding == NSUTF16StringEncoding || encoding == NSUTF16BigEndianStringEncoding || encoding
        == NSUTF16LittleEndianStringEncoding {
        let cs = chars_of(s);
        let mut n: usize = 0;
        let mut i: usize = 0;
        while i < cs.len()
            invariant
                i <= cs@.len(),
                cs@ == s@,
                s@.len() * 4 <= usize::MAX,
                n == utf16_byte_count(cs@.subrange(0, i as int)),
            decreases cs@.len() - i,
        {
            proof {
                lemma_utf16_byte_count_bound(cs@.subrange(0, i as int));
                assert(cs@.subrange(0, i + 1).drop_last() =~= cs@.subrange(0, i as int));
            }
            if (cs[i] as u32) <= 0xFFFF {
                n = n + 2;
            } else {
                n = n + 4;
            }
            i = i + 1;
        }
        assert(cs@.subrange(0, cs@.len() as int) =~= cs@);
        #[verifier::truncate]
        (n as NSUInteger)
    } else if encoding == NSUTF32StringEncoding || encoding == NSUTF32BigEndianStringEncoding || encoding
        == NSUTF32LittleEndianStringEncoding {
        let cs = chars_of(s);
        #[verifier::truncate]
        ((cs.len() * 4) as NSUInteger)
    } else if encoding == NSISOLatin1StringEncoding || encoding == NSWindowsCP1252StringEncoding {
        let cs = chars_of(s);
        let mut n: usize = 0;
        let mut i: usize = 0;
        while i < cs.len()
            invariant
                i <= cs@.len(),
                cs@ == s@,
                n == latin1_char_count(cs@.subrange(0, i as int)),
            decreases cs@.len() - i,
        {
            proof {
                lemma_counts_bound(seq![], cs@.subrange(0, i as int));
                assert(cs@.subrange(0, i + 1).drop_last() =~= cs@.subrange(0, i as int));
            }
            if (cs[i] as u32) <= 0xFF {
                n = n + 1;
            }
            i = i + 1;
        }
        assert(cs@.subrange(0, cs@.len() as int) =~= cs@);
        #[verifier::truncate]
        (n as NSUInteger)
    } else {
        let n = s.as_bytes().len();
        #[verifier::truncate]
        (n as NSUInteger)
    }
}

/// `maximumLengthOfBytesUsingEncoding:`: four bytes for each char in
/// UTF-8, UTF-16 and UTF-32; otherwise what `lengthOfBytesUsingEncoding:`
/// gives.
pub fn maximum_length_of_bytes(s: &str, encoding: NSUInteger) -> (r: NSUInteger)
    requires
        s@.len() * 4 <= usize::MAX,
    ensures
        r == if encoding == NSUTF8StringEncoding || is_utf16_encoding(encoding) || is_utf32_encoding(encoding) {
            (s@.len() * 4) as NSUInteger
        } else {
            length_of_bytes_spec(s@, encoding) as NSUInteger
        },
{
    if encoding == NSUTF8StringEncoding || encoding == NSUTF16StringEncoding || encoding
        == NSUTF16BigEndianStringEncoding || encoding == NSUTF16LittleEndianStringEncoding || encoding
        == NSUTF32StringEncoding || encoding == NSUTF32BigEndianStringEncoding || encoding
        == NSUTF32LittleEndianStringEncoding {
        let cs = chars_of(s);
        #[verifier::truncate]
        ((cs.len() * 4) as NSUInteger)
    } else {
        length_of_bytes(s, encoding)
    }
}

// ---------------------------------------------------------------------
// Pieces and splices
// ---------------------------------------------------------------------

/// `a[lo..hi]` appended to `out`.
fn push_range<T: Copy>(out: &mut Vec<T>, a: &[T], lo: usize, hi: usize)
    requires
        lo <= hi <= a@.len(),
    ensures
        final(out)@ == old(out)@ + a@.subrange(lo as int, hi as int),
{
    let mut k: usize = lo;
    while k < hi
        invariant
            lo <= k <= hi <= a@.len(),
            out@ == old(out)@ + a@.subrange(lo as int, k as int),
        decreases hi - k,
    {
        out.push(a[k]);
        assert(out@ =~= old(out)@ + a@.subrange(lo as int, k + 1));
        k = k + 1;
    }
}

/// `min(x, n)`.
pub open spec fn clamp_to(x: int, n: int) -> int {
    if x < n { x } else { n }
}

/// `substringToIndex:` on code units: the units before `to` (all of them
/// where `to` is past the end).
pub fn substring_to_index(s: &[u16], to: NSUInteger) -> (r: Vec<u16>)
    ensures
        r@ == s@.subrange(0, clamp_to(to as int, s@.len() as int)),
{
    let end = if (to as usize) < s.len() { to as usize } else { s.len() };
    let mut r: Vec<u16> = Vec::new();
    push_range(&mut r, s, 0, end);
    assert(r@ =~= s@.subrange(0, end as int));
    r
}

/// `substringFromIndex:` on code units: the units from `from` on (none
/// where `from` is past the end).
pub fn substring_from_index(s: &[u16], from: NSUInteger) -> (r: Vec<u16>)
    ensures
        r@ == s@.subrange(clamp_to(from as int, s@.len() as int), s@.len() as int),
{
    let start = if (from as usize) < s.len() { from as usize } else { s.len() };
    let mut r: Vec<u16> = Vec::new();
    push_range(&mut r, s, start, s.len());
    assert(r@ =~= s@.subrange(start as int, s@.len() as int));
    r
}

/// `stringByAppendingString:` on code units.
pub fn string_by_appending(s: &[u16], other: &[u16]) -> (r: Vec<u16>)
    ensures
        r@ == s@ + other@,
{
    let mut r: Vec<u16> = Vec::new();
    push_range(&mut r, s, 0, s.len());
    push_range(&mut r, other, 0, other.len());
    assert(r@ =~= s@ + other@);
    r
}

/// `insertString:atIndex:` on code units: `a` placed before the unit at
/// `loc` (at the end where `loc` is past it).
pub fn insert_string(s: &[u16], a: &[u16], loc: NSUInteger) -> (r: Vec<u16>)
    ensures
        ({
            let at = clamp_to(loc as int, s@.len() as int);
            r@ == s@.subrange(0, at) + a@ + s@.subrange(at, s@.len() as int)
        }),
{
    let at = if (loc as usize) < s.len() { loc as usize } else { s.len() };
    let mut r: Vec<u16> = Vec::new();
    push_range(&mut r, s, 0, at);
    push_range(&mut r, a, 0, a.len());
    push_range(&mut r, s, at, s.len());
    assert(r@ =~= s@.subrange(0, at as int) + a@ + s@.subrange(at as int, s@.len() as int));
    r
}

/// `replaceCharactersInRange:withString:` on code units: the units before
/// the range, then `a`, then the units after it (each part clamped to the
/// string).
pub fn replace_characters_in_range(s: &[u16], range: NSRange, a: &[u16]) -> (r: Vec<u16>)
    requires
        range.location + range.length <= u32::MAX,
    ensures
        ({
            let lo = clamp_to(range.location as int, s@.len() as int);
            let hi = clamp_to(range.location + range.length, s@.len() as int);
            r@ == s@.subrange(0, lo) + a@ + s@.subrange(hi, s@.len() as int)
        }),
{
    let lo = if (range.location as usize) < s.len() { range.location as usize } else { s.len() };
    let end = range.location + range.length;
    let hi = if (end as usize) < s.len() { end as usize } else { s.len() };
    let mut r: Vec<u16> = Vec::new();
    push_range(&mut r, s, 0, lo);
    push_range(&mut r, a, 0, a.len());
    push_range(&mut r, s, hi, s.len());
    assert(r@ =~= s@.subrange(0, lo as int) + a@ + s@.subrange(hi as int, s@.len() as int));
    r
}

/// `deleteCharactersInRange:` on code units: the string without the units
/// of `range`.
pub fn delete_characters_in_range(s: &[u16], range: NSRange) -> (r: Vec<u16>)
    requires
        range.location + range.length <= u32::MAX,
        range.location + range.length <= s@.len(),
    ensures
        r@ == s@.subrange(0, range.location as int) + s@.subrange(range.location + range.length, s@.len() as int),
{
    let lo = range.location as usize;
    let hi = (range.location + range.length) as usize;
    let mut r: Vec<u16> = Vec::new();
    push_range(&mut r, s, 0, lo);
    push_range(&mut r, s, hi, s.len());
    r
}

/// `stringByReplacingCharactersInRange:withString:`, which counts chars
/// (not code units): the chars before the range, the replacement, then the
/// chars after it, each end clamped to the string.
pub fn replace_chars_in_range(s: &str, range: NSRange, replacement: &str) -> (r: String)
    ensures
        ({
            let lo = clamp_to(range.location as int, s@.len() as int);
            let hi = clamp_to(lo + range.length, s@.len() as int);
            r@ == s@.subrange(0, lo) + replacement@ + s@.subrange(hi, s@.len() as int)
        }),
{
    let cs = chars_of(s);
    let rs = chars_of(replacement);
    let n = cs.len();
    let lo = if (range.location as usize) < n { range.location as usize } else { n };
    let hi = if (range.length as usize) < n - lo { lo + range.length as usize } else { n };
    let mut out: Vec<char> = Vec::new();
    push_range(&mut out, cs.as_slice(), 0, lo);
    push_range(&mut out, rs.as_slice(), 0, rs.len());
    push_range(&mut out, cs.as_slice(), hi, n);
    assert(out@ =~= s@.subrange(0, lo as int) + replacement@ + s@.subrange(hi as int, s@.len() as int));
    string_from_chars(out.as_slice())
}

/// `stringByAppendingPathExtension:`: the path, a dot and the extension;
/// the path alone for an empty extension.
pub fn string_by_appending_path_extension(path: &str, extension: &str) -> (r: String)
    ensures
        r@ == if extension@.len() == 0 { path@ } else { path@ + seq!['.'] + extension@ },
{
    let ps = chars_of(path);
    let es = chars_of(extension);
    let mut out: Vec<char> = Vec::new();
    push_range(&mut out, ps.as_slice(), 0, ps.len());
    if es.len() > 0 {
        out.push('.');
        push_range(&mut out, es.as_slice(), 0, es.len());
    }
    proof {
        if extension@.len() == 0 {
            assert(out@ =~= path@);
        } else {
            assert(out@ =~= path@ + seq!['.'] + extension@);
        }
    }
    string_from_chars(out.as_slice())
}

/// Whether `p` stands in `s` from position `at` on.
fn chars_match_at(s: &[char], p: &[char], at: usize) -> (r: bool)
    requires
        at + p@.len() <= s@.len(),
    ensures
        r == (s@.subrange(at as int, at + p@.len()) == p@),
{
    let mut k: usize = 0;
    while k < p.len()
        invariant
            at + p@.len() <= s.len(),
            k <= p@.len(),
            forall|m: int| 0 <= m < k ==> s@[at + m] == p@[m],
        decreases p@.len() - k,
    {
        if s[at + k] != p[k] {
            assert(s@.subrange(at as int, at + p@.len())[k as int] != p@[k as int]);
            return false;
        }
        k = k + 1;
    }
    assert(s@.subrange(at as int, at + p@.len()) =~= p@);
    true
}

/// `hasPrefix:`: the string starts with `prefix`.
pub fn has_prefix(s: &str, prefix: &str) -> (r: bool)
    ensures
        r == (prefix@.len() <= s@.len() && s@.subrange(0, prefix@.len() as int) == prefix@),
{
    let cs = chars_of(s);
    let ps = chars_of(prefix);
    if ps.len() > cs.len() {
        return false;
    }
    chars_match_at(cs.as_slice(), ps.as_slice(), 0)
}

/// `hasSuffix:`: the string ends with `suffix`.
pub fn has_suffix(s: &str, suffix: &str) -> (r: bool)
    ensures
        r == (suffix@.len() <= s@.len() && s@.subrange(s@.len() - suffix@.len(), s@.len() as int) == suffix@),
{
    let cs = chars_of(s);
    let ps = chars_of(suffix);
    if ps.len() > cs.len() {
        return false;
    }
    chars_match_at(cs.as_slice(), ps.as_slice(), cs.len() - ps.len())
}

} // verus!
