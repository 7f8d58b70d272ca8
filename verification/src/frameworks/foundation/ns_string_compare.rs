//! Comparing two strings' UTF-16 code units, as `compare:options:` does:
//! literally, ignoring case, or reading runs of digits as numbers.
use vstd::prelude::*;
use crate::external::{char_to_lowercase, lowercase_of};
use crate::frameworks::foundation::ns_string_search::{is_surrogate, NSCaseInsensitiveSearch, NSLiteralSearch};
use crate::frameworks::foundation::{
    NSComparisonResult, NSOrderedAscending, NSOrderedDescending, NSOrderedSame, NSUInteger,
};

verus! {

broadcast use vstd::utf8::char_u32_cast;

pub const NSNumericSearch: NSUInteger = 64;

/// The order of two integers.
pub open spec fn order_of(x: int, y: int) -> NSComparisonResult {
    if x < y {
        NSOrderedAscending
    } else if x == y {
        NSOrderedSame
    } else {
        NSOrderedDescending
    }
}

/// The order of two sequences of which at least one has run out at the
/// given positions: the one that ran out first is the smaller.
pub open spec fn end_order(a_done: bool, b_done: bool) -> NSComparisonResult {
    if a_done && b_done {
        NSOrderedSame
    } else if a_done {
        NSOrderedAscending
    } else {
        NSOrderedDescending
    }
}

/// The lexicographic order of `a[i..]` and `b[i..]`.
pub open spec fn literal_order(a: Seq<u16>, b: Seq<u16>, i: int) -> NSComparisonResult
    decreases a.len() - i,
{
    if i < 0 || i >= a.len() || i >= b.len() {
        end_order(i >= a.len(), i >= b.len())
    } else if a[i] != b[i] {
        order_of(a[i] as int, b[i] as int)
    } else {
        literal_order(a, b, i + 1)
    }
}

/// The lexicographic order of two char sequences from `k` on, chars
/// ordered by code point.
pub open spec fn chars_order(x: Seq<char>, y: Seq<char>, k: int) -> NSComparisonResult
    decreases x.len() - k,
{
    if k < 0 || k >= x.len() || k >= y.len() {
        end_order(k >= x.len(), k >= y.len())
    } else if x[k] != y[k] {
        order_of(x[k] as int, y[k] as int)
    } else {
        chars_order(x, y, k + 1)
    }
}

/// The order of two code units ignoring case: that of their lowercase
/// mappings.
pub open spec fn unit_order_ignoring_case(u: u16, v: u16) -> NSComparisonResult {
    chars_order(lowercase_of((u as u32) as char), lowercase_of((v as u32) as char), 0)
}

/// The order of `a[i..]` and `b[i..]` ignoring case; `None` where a
/// surrogate is met before the order is settled (the comparison stops the
/// emulator there).
pub open spec fn case_insensitive_order(a: Seq<u16>, b: Seq<u16>, i: int) -> Option<NSComparisonResult>
    decreases a.len() - i,
{
    if i < 0 || i >= a.len() || i >= b.len() {
        Some(end_order(i >= a.len(), i >= b.len()))
    } else if is_surrogate(a[i]) || is_surrogate(b[i]) {
        None
    } else if unit_order_ignoring_case(a[i], b[i]) != NSOrderedSame {
        Some(unit_order_ignoring_case(a[i], b[i]))
    } else {
        case_insensitive_order(a, b, i + 1)
    }
}

pub open spec fn is_digit_unit(u: u16) -> bool {
    0x30 <= u <= 0x39
}

/// The end of the run of ASCII digits that starts at `i`.
pub open spec fn digit_run_end(s: Seq<u16>, i: int) -> int
    decreases s.len() - i,
{
    if 0 <= i < s.len() && is_digit_unit(s[i]) {
        digit_run_end(s, i + 1)
    } else {
        i
    }
}

/// The number that the decimal digits `s[i..e]` write.
pub open spec fn digits_value(s: Seq<u16>, i: int, e: int) -> int
    decreases e - i,
{
    if e <= i {
        0
    } else {
        digits_value(s, i, e - 1) * 10 + (s[e - 1] - 0x30)
    }
}

/// The order of `a[i..]` and `b[j..]` where runs of digits compare as
/// numbers; `None` where a surrogate is met, or a run of digits that is
/// read has a value beyond `u32`, before the order is settled (the
/// comparison stops the emulator there).
pub open spec fn numeric_order(a: Seq<u16>, b: Seq<u16>, i: int, j: int) -> Option<NSComparisonResult>
    decreases a.len() - i + b.len() - j,
{
    if i < 0 || j < 0 || i >= a.len() || j >= b.len() {
        Some(end_order(i >= a.len(), j >= b.len()))
    } else if is_surrogate(a[i]) || is_surrogate(b[j]) {
        None
    } else if is_digit_unit(a[i]) && is_digit_unit(b[j]) {
        let ea = digit_run_end(a, i);
        let eb = digit_run_end(b, j);
        let va = digits_value(a, i, ea);
        let vb = digits_value(b, j, eb);
        if va > u32::MAX || vb > u32::MAX {
            None
        } else if va != vb {
            Some(order_of(va, vb))
        } else if ea <= i || eb <= j || ea > a.len() || eb > b.len() {
            // never: a run that starts with a digit is not empty, and ends
            // within the string
            None
        } else {
            numeric_order(a, b, ea, eb)
        }
    } else if a[i] != b[j] {
        Some(order_of(a[i] as int, b[j] as int))
    } else {
        numeric_order(a, b, i + 1, j + 1)
    }
}

/// The masks that `compare:options:` handles.
pub open spec fn compare_mask(mask: NSUInteger) -> bool {
    mask == 0 || mask == NSLiteralSearch || mask == NSCaseInsensitiveSearch || mask == NSNumericSearch
}

/// What `compare:options:` gives, where the comparison runs to its end.
pub open spec fn compare_result(a: Seq<u16>, b: Seq<u16>, mask: NSUInteger) -> Option<NSComparisonResult> {
    if mask == NSCaseInsensitiveSearch {
        case_insensitive_order(a, b, 0)
    } else if mask == NSNumericSearch {
        numeric_order(a, b, 0, 0)
    } else {
        Some(literal_order(a, b, 0))
    }
}

pub proof fn lemma_digit_run(s: Seq<u16>, i: int)
    requires
        0 <= i <= s.len(),
    ensures
        i <= digit_run_end(s, i) <= s.len(),
        forall|k: int| i <= k < digit_run_end(s, i) ==> is_digit_unit(#[trigger] s[k]),
    decreases s.len() - i,
{
    if i < s.len() && is_digit_unit(s[i]) {
        lemma_digit_run(s, i + 1);
    }
}

pub proof fn lemma_digits_value_grows(s: Seq<u16>, i: int, k: int, e: int)
    requires
        i <= k <= e,
        forall|m: int| i <= m < e ==> is_digit_unit(#[trigger] s[m]),
    ensures
        0 <= digits_value(s, i, k) <= digits_value(s, i, e),
    decreases e - k,
{
    if k < e {
        lemma_digits_value_grows(s, i, k, e - 1);
        assert(is_digit_unit(s[e - 1]));
        if e - 1 > i {
            lemma_digits_value_grows(s, i, e - 1, e - 1);
        }
    } else {
        lemma_digits_nonneg(s, i, e);
    }
}

proof fn lemma_digits_nonneg(s: Seq<u16>, i: int, e: int)
    requires
        forall|m: int| i <= m < e ==> is_digit_unit(#[trigger] s[m]),
    ensures
        0 <= digits_value(s, i, e),
    decreases e - i,
{
    if e > i {
        lemma_digits_nonneg(s, i, e - 1);
        assert(is_digit_unit(s[e - 1]));
    }
}

/// The order of two chars.
fn char_order(x: char, y: char) -> (r: NSComparisonResult)
    ensures
        r == order_of(x as int, y as int),
{
    if x < y {
        NSOrderedAscending
    } else if x == y {
        NSOrderedSame
    } else {
        NSOrderedDescending
    }
}

/// The order of two code units ignoring case.
fn order_ignoring_case(u: u16, v: u16) -> (r: NSComparisonResult)
    requires
        !is_surrogate(u),
        !is_surrogate(v),
    ensures
        r == unit_order_ignoring_case(u, v),
{
    let cu = char::from_u32(u as u32);
    let cv = char::from_u32(v as u32);
    match (cu, cv) {
        (Some(cu), Some(cv)) => {
            proof {
                vstd::utf8::char_u32_cast(cu, u as u32);
                vstd::utf8::char_u32_cast(cv, v as u32);
            }
            let x = char_to_lowercase(cu);
            let y = char_to_lowercase(cv);
            let mut k: usize = 0;
            while k < x.len() && k < y.len()
                invariant
                    x@ == lowercase_of(cu),
                    y@ == lowercase_of(cv),
                    cu == (u as u32) as char,
                    cv == (v as u32) as char,
                    chars_order(x@, y@, 0) == chars_order(x@, y@, k as int),
                decreases x@.len() - k,
            {
                if x[k] != y[k] {
                    return char_order(x[k], y[k]);
                }
                k = k + 1;
            }
            if k >= x.len() && k >= y.len() {
                NSOrderedSame
            } else if k >= x.len() {
                NSOrderedAscending
            } else {
                NSOrderedDescending
            }
        },
        _ => {
            proof {
                assert(vstd::utf8::is_scalar(u as u32) && vstd::utf8::is_scalar(v as u32));
            }
            NSOrderedSame
        },
    }
}

/// The number written by the digits from `i` on, and where they end;
/// `None` where it is beyond `u32`.
fn read_number(s: &[u16], i: usize) -> (r: Option<(u32, usize)>)
    requires
        i <= s@.len(),
    ensures
        r matches Some((v, e)) ==> e == digit_run_end(s@, i as int) && v == digits_value(s@, i as int, e as int),
        r is None ==> digits_value(s@, i as int, digit_run_end(s@, i as int)) > u32::MAX,
{
    proof {
        lemma_digit_run(s@, i as int);
    }
    let mut k: usize = i;
    let mut num: u32 = 0;
    while k < s.len() && 0x30 <= s[k] && s[k] <= 0x39
        invariant
            i <= k <= s@.len(),
            digit_run_end(s@, i as int) == digit_run_end(s@, k as int),
            forall|m: int| i <= m < k ==> is_digit_unit(#[trigger] s@[m]),
            num == digits_value(s@, i as int, k as int),
        decreases s@.len() - k,
    {
        let d = (s[k] - 0x30) as u32;
        proof {
            lemma_digit_run(s@, i as int);
            lemma_digit_run(s@, k + 1);
        }
        if num > (u32::MAX - d) / 10 {
            proof {
                assert(digits_value(s@, i as int, k + 1) == num * 10 + d);
                lemma_digits_value_grows(s@, i as int, k + 1, digit_run_end(s@, i as int));
            }
            return None;
        }
        num = num * 10 + d;
        k = k + 1;
    }
    Some((num, k))
}

/// `compare:options:` on the code units of two strings. A mask of 0 means
/// `NSLiteralSearch`: code units in lexicographic order. With
/// `NSCaseInsensitiveSearch` each pair of units is ordered by their
/// lowercase mappings; with `NSNumericSearch` runs of ASCII digits compare
/// by the numbers they write. Where one string is a prefix of the other,
/// the shorter comes first.
pub fn compare_with_options(a: &[u16], b: &[u16], mask: NSUInteger) -> (r: NSComparisonResult)
    requires
        compare_mask(mask),
        compare_result(a@, b@, mask) is Some,
    ensures
        compare_result(a@, b@, mask) == Some(r),
{
    if mask == NSCaseInsensitiveSearch {
        let mut i: usize = 0;
        while i < a.len() && i < b.len()
            invariant
                case_insensitive_order(a@, b@, 0) == case_insensitive_order(a@, b@, i as int),
                case_insensitive_order(a@, b@, 0) is Some,
                compare_result(a@, b@, mask) == case_insensitive_order(a@, b@, 0),
            decreases a@.len() - i,
        {
            let o = order_ignoring_case(a[i], b[i]);
            if o != NSOrderedSame {
                return o;
            }
            i = i + 1;
        }
        if i >= a.len() && i >= b.len() {
            NSOrderedSame
        } else if i >= a.len() {
            NSOrderedAscending
        } else {
            NSOrderedDescending
        }
    } else if mask == NSNumericSearch {
        let mut i: usize = 0;
        let mut j: usize = 0;
        while i < a.len() && j < b.len()
            invariant
                i <= a@.len(),
                j <= b@.len(),
                numeric_order(a@, b@, 0, 0) == numeric_order(a@, b@, i as int, j as int),
                numeric_order(a@, b@, 0, 0) is Some,
                compare_result(a@, b@, mask) == numeric_order(a@, b@, 0, 0),
            decreases a@.len() - i + b@.len() - j,
        {
            let x = a[i];
            let y = b[j];
            if 0x30 <= x && x <= 0x39 && 0x30 <= y && y <= 0x39 {
                let ra = read_number(a, i);
                let rb = read_number(b, j);
                match (ra, rb) {
                    (Some((va, ea)), Some((vb, eb))) => {
                        if va != vb {
                            return if va < vb { NSOrderedAscending } else { NSOrderedDescending };
                        }
                        proof {
                            lemma_digit_run(a@, i + 1);
                            lemma_digit_run(b@, j + 1);
                        }
                        i = ea;
                        j = eb;
                    },
                    _ => {
                        return NSOrderedSame;
                    },
                }
            } else {
                if x != y {
                    return if x < y { NSOrderedAscending } else { NSOrderedDescending };
                }
                i = i + 1;
                j = j + 1;
            }
        }
        if i >= a.len() && j >= b.len() {
            NSOrderedSame
        } else if i >= a.len() {
            NSOrderedAscending
        } else {
            NSOrderedDescending
        }
    } else {
        let mut i: usize = 0;
        while i < a.len() && i < b.len()
            invariant
                literal_order(a@, b@, 0) == literal_order(a@, b@, i as int),
                compare_result(a@, b@, mask) == Some(literal_order(a@, b@, 0)),
            decreases a@.len() - i,
        {
            if a[i] != b[i] {
                return if a[i] < b[i] { NSOrderedAscending } else { NSOrderedDescending };
            }
            i = i + 1;
        }
        if i >= a.len() && i >= b.len() {
            NSOrderedSame
        } else if i >= a.len() {
            NSOrderedAscending
        } else {
            NSOrderedDescending
        }
    }
}

} // verus!
