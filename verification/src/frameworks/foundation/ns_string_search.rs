//! Searching a string's UTF-16 code units for another string, as
//! `rangeOfString:` and its variants do.
use vstd::prelude::*;
use crate::external::{char_to_lowercase, lowercase_of};
use crate::frameworks::foundation::{NSNotFound, NSRange, NSUInteger};
use crate::frameworks::foundation::ns_character_set::CharacterSetHostObject;

verus! {

broadcast use vstd::utf8::char_u32_cast;

pub const NSCaseInsensitiveSearch: NSUInteger = 1;

pub const NSLiteralSearch: NSUInteger = 2;

pub const NSBackwardsSearch: NSUInteger = 4;

/// How two code units are compared.
#[derive(Clone, Copy, PartialEq, Eq, Structural)]
pub enum UnitComparison {
    /// The same code unit.
    Exact,
    /// The same lowercase mapping; a surrogate matches nothing.
    IgnoringCase,
    /// The same lowercase mapping; a surrogate is compared exactly.
    IgnoringCaseElseExact,
}

pub open spec fn is_surrogate(u: u16) -> bool {
    0xD800 <= u <= 0xDFFF
}

pub open spec fn same_lowercase_spec(a: u16, b: u16) -> bool {
    lowercase_of((a as u32) as char) == lowercase_of((b as u32) as char)
}

pub open spec fn units_agree(a: u16, b: u16, how: UnitComparison) -> bool {
    match how {
        UnitComparison::Exact => a == b,
        UnitComparison::IgnoringCase => !is_surrogate(a) && !is_surrogate(b) && same_lowercase_spec(a, b),
        UnitComparison::IgnoringCaseElseExact => if is_surrogate(a) || is_surrogate(b) {
            a == b
        } else {
            same_lowercase_spec(a, b)
        },
    }
}

/// Every unit of the first `len_search` of `p` agrees with the unit of `s`
/// that stands `start` further on, and that unit lies before `len`.
pub open spec fn occurs_at(s: Seq<u16>, p: Seq<u16>, start: int, len: int, len_search: int, how: UnitComparison) -> bool {
    forall|j: int| #![trigger p[j]] 0 <= j < len_search ==> start + j < len && units_agree(s[start + j], p[j], how)
}

/// The range that reports no match.
pub open spec fn not_found() -> NSRange {
    NSRange { location: NSNotFound as NSUInteger, length: 0 }
}

/// A search result: at `i`, `len_search` long, where `found` holds; else
/// no match.
pub open spec fn found_or_not(found: Option<int>, len_search: NSUInteger) -> NSRange {
    match found {
        Some(i) => NSRange { location: i as NSUInteger, length: len_search },
        None => not_found(),
    }
}

/// The first position in `lo..hi` at which `p` matches, if any.
pub open spec fn first_match(s: Seq<u16>, p: Seq<u16>, lo: int, hi: int, len: int, how: UnitComparison) -> Option<int>
    decreases hi - lo,
{
    if lo >= hi {
        None
    } else if occurs_at(s, p, lo, len, p.len() as int, how) {
        Some(lo)
    } else {
        first_match(s, p, lo + 1, hi, len, how)
    }
}

/// The last position in `lo..hi` at which `p` matches, if any.
pub open spec fn last_match(s: Seq<u16>, p: Seq<u16>, lo: int, hi: int, len: int, how: UnitComparison) -> Option<int>
    decreases hi - lo,
{
    if lo >= hi {
        None
    } else if occurs_at(s, p, hi - 1, len, p.len() as int, how) {
        Some(hi - 1)
    } else {
        last_match(s, p, lo, hi - 1, len, how)
    }
}

/// Same lowercase mapping.
pub(crate) fn same_lowercase(a: char, b: char) -> (r: bool)
    ensures
        r == (lowercase_of(a) == lowercase_of(b)),
{
    let la = char_to_lowercase(a);
    let lb = char_to_lowercase(b);
    if la.len() != lb.len() {
        assert(la@.len() != lb@.len());
        return false;
    }
    let mut k: usize = 0;
    while k < la.len()
        invariant
            la@ == lowercase_of(a),
            lb@ == lowercase_of(b),
            la@.len() == lb@.len(),
            k <= la@.len(),
            forall|j: int| 0 <= j < k ==> la@[j] == lb@[j],
        decreases la@.len() - k,
    {
        if la[k] != lb[k] {
            assert(la@[k as int] != lb@[k as int]);
            return false;
        }
        k = k + 1;
    }
    assert(la@ =~= lb@);
    true
}

/// Whether two code units agree under `how`.
pub fn unit_agrees(a: u16, b: u16, how: UnitComparison) -> (r: bool)
    ensures
        r == units_agree(a, b, how),
{
    match how {
        UnitComparison::Exact => a == b,
        _ => match (char::from_u32(a as u32), char::from_u32(b as u32)) {
            (Some(ca), Some(cb)) => {
                proof {
                    vstd::utf8::char_u32_cast(ca, a as u32);
                    vstd::utf8::char_u32_cast(cb, b as u32);
                }
                same_lowercase(ca, cb)
            },
            _ => {
                assert(is_surrogate(a) || is_surrogate(b));
                match how {
                    UnitComparison::IgnoringCase => false,
                    _ => a == b,
                }
            },
        },
    }
}

/// Whether `search_string` (its first `len_search` units) occurs in
/// `the_string` at `start`, without reaching `len`.
pub fn is_match_at_position(
    the_string: &[u16],
    search_string: &[u16],
    start: NSUInteger,
    len: NSUInteger,
    len_search: NSUInteger,
    how: UnitComparison,
) -> (r: bool)
    requires
        len <= the_string@.len(),
        len_search <= search_string@.len(),
    ensures
        r == occurs_at(the_string@, search_string@, start as int, len as int, len_search as int, how),
{
    let ghost ss = the_string@;
    let ghost ps = search_string@;
    let mut j: NSUInteger = 0;
    while j < len_search
        invariant
            ss == the_string@,
            ps == search_string@,
            len <= ss.len(),
            len_search <= ps.len(),
            j <= len_search,
            occurs_at(ss, ps, start as int, len as int, j as int, how),
        decreases len_search - j,
    {
        if start < len && j < len - start {
            let curr = start + j;
            let a_c = the_string[curr as usize];
            let b_c = search_string[j as usize];
            if !unit_agrees(a_c, b_c, how) {
                assert(!units_agree(ss[start + j], ps[j as int], how));
                return false;
            }
            assert forall|k: int| #![trigger ps[k]] 0 <= k < j + 1 implies start + k < len && units_agree(ss[start + k], ps[k], how) by {
                if k < j {
                    assert(occurs_at(ss, ps, start as int, len as int, j as int, how));
                }
            }
        } else {
            assert(!occurs_at(ss, ps, start as int, len as int, len_search as int, how)) by {
                if occurs_at(ss, ps, start as int, len as int, len_search as int, how) {
                    assert(ps[j as int] <= 0xffff);
                    assert(start + j < len);
                }
            }
            return false;
        }
        j = j + 1;
    }
    true
}

/// The result of the search for `p` in `s` at positions `lo..hi` (forwards:
/// the first match; backwards: the last), matches not reaching `len`.
fn scan(s: &[u16], p: &[u16], lo: NSUInteger, hi: NSUInteger, len: NSUInteger, how: UnitComparison, backwards: bool) -> (r: NSRange)
    requires
        len <= s@.len(),
        0 < p@.len() <= u32::MAX,
    ensures
        r == found_or_not(
            if backwards {
                last_match(s@, p@, lo as int, hi as int, len as int, how)
            } else {
                first_match(s@, p@, lo as int, hi as int, len as int, how)
            },
            p@.len() as NSUInteger,
        ),
{
    let len_search = p.len() as NSUInteger;
    if lo >= hi {
        return NSRange { location: NSNotFound as NSUInteger, length: 0 };
    }
    if backwards {
        let mut i: NSUInteger = hi;
        while i > lo
            invariant
                backwards,
                lo <= i <= hi,
                len <= s@.len(),
                len_search == p@.len(),
                last_match(s@, p@, lo as int, hi as int, len as int, how) == last_match(
                    s@,
                    p@,
                    lo as int,
                    i as int,
                    len as int,
                    how,
                ),
            decreases i - lo,
        {
            if is_match_at_position(s, p, i - 1, len, len_search, how) {
                assert(last_match(s@, p@, lo as int, i as int, len as int, how) == Some(i - 1));
                return NSRange { location: i - 1, length: len_search };
            }
            i = i - 1;
        }
    } else {
        let mut i: NSUInteger = lo;
        while i < hi
            invariant
                !backwards,
                lo <= i <= hi,
                len <= s@.len(),
                len_search == p@.len(),
                first_match(s@, p@, lo as int, hi as int, len as int, how) == first_match(
                    s@,
                    p@,
                    i as int,
                    hi as int,
                    len as int,
                    how,
                ),
            decreases hi - i,
        {
            if is_match_at_position(s, p, i, len, len_search, how) {
                assert(first_match(s@, p@, i as int, hi as int, len as int, how) == Some(i as int));
                return NSRange { location: i, length: len_search };
            }
            i = i + 1;
        }
    }
    NSRange { location: NSNotFound as NSUInteger, length: 0 }
}

/// The options that `rangeOfString:options:` handles.
pub open spec fn plain_search_option(options: NSUInteger) -> bool {
    options == 0 || options == NSLiteralSearch || options == NSCaseInsensitiveSearch || options == NSBackwardsSearch
}

/// `rangeOfString:options:` on the code units of the two strings: the first
/// occurrence (the last with `NSBackwardsSearch`), compared exactly or,
/// with `NSCaseInsensitiveSearch`, ignoring case; not found for an empty
/// search string.
pub fn range_of_string(s: &[u16], p: &[u16], options: NSUInteger) -> (r: NSRange)
    requires
        s@.len() <= u32::MAX,
        p@.len() <= u32::MAX,
        plain_search_option(options),
    ensures
        r == if p@.len() == 0 {
            not_found()
        } else if options == NSBackwardsSearch {
            found_or_not(last_match(s@, p@, 0, s@.len() as int, s@.len() as int, UnitComparison::Exact), p@.len() as NSUInteger)
        } else if options == NSCaseInsensitiveSearch {
            found_or_not(first_match(s@, p@, 0, s@.len() as int, s@.len() as int, UnitComparison::IgnoringCase), p@.len() as NSUInteger)
        } else {
            found_or_not(first_match(s@, p@, 0, s@.len() as int, s@.len() as int, UnitComparison::Exact), p@.len() as NSUInteger)
        },
{
    let len = s.len() as NSUInteger;
    if p.len() == 0 {
        return NSRange { location: NSNotFound as NSUInteger, length: 0 };
    }
    if options == NSBackwardsSearch {
        scan(s, p, 0, len, len, UnitComparison::Exact, true)
    } else if options == NSCaseInsensitiveSearch {
        scan(s, p, 0, len, len, UnitComparison::IgnoringCase, false)
    } else {
        scan(s, p, 0, len, len, UnitComparison::Exact, false)
    }
}

/// The last position at which a match can start within the search range.
pub open spec fn max_start(len: int, p_len: int, range: NSRange) -> int {
    let end_bound = if range.location + range.length < len { range.location + range.length } else { len };
    if end_bound >= p_len { end_bound - p_len } else { 0 }
}

/// `rangeOfString:options:range:` on the code units of the two strings:
/// matches lie wholly inside `range` (clipped to the string); the first,
/// or with `NSBackwardsSearch` the last; `NSCaseInsensitiveSearch` ignores
/// case, comparing surrogates exactly. Not found for an empty search string
/// or an empty or out-of-bounds range.
pub fn range_of_string_in_range(s: &[u16], p: &[u16], options: NSUInteger, range: NSRange) -> (r: NSRange)
    requires
        s@.len() <= u32::MAX,
        p@.len() <= u32::MAX,
        p@.len() == 0 || range.location >= s@.len() || range.length == 0 || range.location + range.length <= u32::MAX,
    ensures
        ({
            let how = if options & NSCaseInsensitiveSearch != 0 {
                UnitComparison::IgnoringCaseElseExact
            } else {
                UnitComparison::Exact
            };
            let ms = max_start(s@.len() as int, p@.len() as int, range);
            r == if p@.len() == 0 || range.location >= s@.len() || range.length == 0 || range.location > ms {
                not_found()
            } else if options & NSBackwardsSearch != 0 {
                found_or_not(last_match(s@, p@, range.location as int, ms + 1, s@.len() as int, how), p@.len() as NSUInteger)
            } else {
                found_or_not(first_match(s@, p@, range.location as int, ms + 1, s@.len() as int, how), p@.len() as NSUInteger)
            }
        }),
{
    let len = s.len() as NSUInteger;
    let len_search = p.len() as NSUInteger;
    let search_loc = range.location;
    let search_len = range.length;
    if len_search == 0 || search_loc >= len || search_len == 0 {
        return NSRange { location: NSNotFound as NSUInteger, length: 0 };
    }
    let end_bound = if search_loc + search_len < len { search_loc + search_len } else { len };
    let max_start = if end_bound >= len_search { end_bound - len_search } else { 0 };
    if search_loc > max_start {
        return NSRange { location: NSNotFound as NSUInteger, length: 0 };
    }
    let how = if options & NSCaseInsensitiveSearch != 0 {
        UnitComparison::IgnoringCaseElseExact
    } else {
        UnitComparison::Exact
    };
    scan(s, p, search_loc, max_start + 1, len, how, options & NSBackwardsSearch != 0)
}

/// The first position in `lo..hi` whose code unit belongs to `set`.
pub open spec fn first_member(s: Seq<u16>, set: CharacterSetHostObject, lo: int, hi: int) -> Option<int>
    decreases hi - lo,
{
    if lo >= hi {
        None
    } else if set.is_member(s[lo]) {
        Some(lo)
    } else {
        first_member(s, set, lo + 1, hi)
    }
}

/// The last position in `lo..hi` whose code unit belongs to `set`.
pub open spec fn last_member(s: Seq<u16>, set: CharacterSetHostObject, lo: int, hi: int) -> Option<int>
    decreases hi - lo,
{
    if lo >= hi {
        None
    } else if set.is_member(s[hi - 1]) {
        Some(hi - 1)
    } else {
        last_member(s, set, lo, hi - 1)
    }
}

/// The end of the search range, clipped to the string's length.
pub open spec fn clipped_end(len: int, range: NSRange) -> int {
    if range.location + range.length < len { range.location + range.length } else { len }
}

/// What `rangeOfCharacterFromSet:options:range:` finds.
pub open spec fn char_search_result(s: Seq<u16>, set: Option<&CharacterSetHostObject>, options: NSUInteger, range: NSRange) -> NSRange {
    match set {
        None => not_found(),
        Some(set) => if range.location >= s.len() || range.length == 0 {
            not_found()
        } else {
            let found = if options & NSBackwardsSearch != 0 {
                last_member(s, *set, range.location as int, clipped_end(s.len() as int, range))
            } else {
                first_member(s, *set, range.location as int, clipped_end(s.len() as int, range))
            };
            match found {
                Some(i) => NSRange { location: i as NSUInteger, length: 1 },
                None => not_found(),
            }
        },
    }
}

/// `rangeOfCharacterFromSet:options:range:` on the code units of a string:
/// the first code unit inside `range` (clipped to the string) that belongs
/// to `set`, or with `NSBackwardsSearch` the last, as a range of length 1.
/// Not found where there is no set, or the range is empty or starts past
/// the end.
pub fn range_of_character_from_set(
    s: &[u16],
    set: Option<&CharacterSetHostObject>,
    options: NSUInteger,
    range: NSRange,
) -> (r: NSRange)
    requires
        s@.len() <= u32::MAX,
        set is None || range.location >= s@.len() || range.length == 0 || range.location + range.length <= u32::MAX,
    ensures
        r == char_search_result(s@, set, options, range),
{
    let len = s.len() as NSUInteger;
    let search_loc = range.location;
    let search_len = range.length;
    let cs = match set {
        None => return NSRange { location: NSNotFound as NSUInteger, length: 0 },
        Some(cs) => cs,
    };
    if search_loc >= len || search_len == 0 {
        return NSRange { location: NSNotFound as NSUInteger, length: 0 };
    }
    let end_bound = if search_loc + search_len < len { search_loc + search_len } else { len };
    if options & NSBackwardsSearch != 0 {
        let mut i: NSUInteger = end_bound;
        while i > search_loc
            invariant
                options & NSBackwardsSearch != 0,
                set == Some(cs),
                search_loc == range.location,
                search_len == range.length,
                search_loc < len,
                search_len != 0,
                end_bound == clipped_end(s@.len() as int, range),
                search_loc <= i <= end_bound <= len == s@.len(),
                last_member(s@, *cs, search_loc as int, end_bound as int) == last_member(s@, *cs, search_loc as int, i as int),
            decreases i - search_loc,
        {
            if cs.character_is_member(s[(i - 1) as usize]) {
                assert(last_member(s@, *cs, search_loc as int, end_bound as int) == Some(i - 1));
                return NSRange { location: i - 1, length: 1 };
            }
            i = i - 1;
        }
    } else {
        let mut i: NSUInteger = search_loc;
        while i < end_bound
            invariant
                options & NSBackwardsSearch == 0,
                set == Some(cs),
                search_loc == range.location,
                search_len == range.length,
                search_loc < len,
                search_len != 0,
                end_bound == clipped_end(s@.len() as int, range),
                search_loc <= i <= end_bound <= len == s@.len(),
                first_member(s@, *cs, search_loc as int, end_bound as int) == first_member(s@, *cs, i as int, end_bound as int),
            decreases end_bound - i,
        {
            if cs.character_is_member(s[i as usize]) {
                assert(first_member(s@, *cs, search_loc as int, end_bound as int) == Some(i as int));
                return NSRange { location: i, length: 1 };
            }
            i = i + 1;
        }
    }
    NSRange { location: NSNotFound as NSUInteger, length: 0 }
}

} // verus!
