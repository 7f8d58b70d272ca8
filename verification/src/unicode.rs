//! UTF-8 and UTF-16 encoding and decoding of text.
use vstd::prelude::*;
use vstd::string::*;
use vstd::utf8::*;

verus! {

broadcast use {vstd::utf8::char_is_scalar, vstd::utf8::char_u32_cast};

/// The UTF-16 code units of one Unicode scalar value.
pub open spec fn utf16_of_scalar(v: u32) -> Seq<u16> {
    if v < 0x10000 {
        seq![v as u16]
    } else {
        let w = v - 0x10000;
        seq![(0xD800 + w / 1024) as u16, (0xDC00 + w % 1024) as u16]
    }
}

/// The UTF-16 encoding of a char sequence.
pub open spec fn utf16_encode(chars: Seq<char>) -> Seq<u16>
    decreases chars.len(),
{
    if chars.len() == 0 {
        seq![]
    } else {
        utf16_encode(chars.drop_last()) + utf16_of_scalar(chars.last() as u32)
    }
}

pub open spec fn is_high_surrogate(u: u16) -> bool {
    0xD800 <= u <= 0xDBFF
}

pub open spec fn is_low_surrogate(u: u16) -> bool {
    0xDC00 <= u <= 0xDFFF
}

/// Decodes UTF-16; `None` when a surrogate is unpaired.
pub open spec fn utf16_decode(units: Seq<u16>) -> Option<Seq<char>>
    decreases units.len(),
{
    if units.len() == 0 {
        Some(seq![])
    } else if !(0xD800 <= units[0] <= 0xDFFF) {
        match utf16_decode(units.drop_first()) {
            Some(rest) => Some(seq![(units[0] as u32) as char] + rest),
            None => None,
        }
    } else if is_high_surrogate(units[0]) && units.len() >= 2 && is_low_surrogate(units[1]) {
        let cp = (0x10000 + (units[0] - 0xD800) * 1024 + (units[1] - 0xDC00)) as u32;
        match utf16_decode(units.skip(2)) {
            Some(rest) => Some(seq![cp as char] + rest),
            None => None,
        }
    } else {
        None
    }
}

pub proof fn lemma_utf16_encode_append(a: Seq<char>, b: Seq<char>)
    ensures
        utf16_encode(a + b) == utf16_encode(a) + utf16_encode(b),
    decreases b.len(),
{
    if b.len() == 0 {
        assert(a + b =~= a);
        assert(utf16_encode(b) =~= seq![]);
        assert(utf16_encode(a) + utf16_encode(b) =~= utf16_encode(a));
    } else {
        lemma_utf16_encode_append(a, b.drop_last());
        assert((a + b).drop_last() =~= a + b.drop_last());
        assert((a + b).last() == b.last());
    }
}

/// The chars of a string slice, one by one.
pub fn chars_of(s: &str) -> (v: Vec<char>)
    ensures
        v@ == s@,
{
    let n = s.unicode_len();
    let mut v: Vec<char> = Vec::new();
    let mut i: usize = 0;
    while i < n
        invariant
            n == s@.len(),
            i <= n,
            v@ == s@.subrange(0, i as int),
        decreases n - i,
    {
        v.push(s.get_char(i));
        i = i + 1;
        assert(v@ =~= s@.subrange(0, i as int));
    }
    assert(v@ =~= s@);
    v
}

/// A string holding the given chars.
pub fn string_from_chars(cs: &[char]) -> (s: String)
    ensures
        s@ == cs@,
{
    let mut s = String::new();
    let mut i: usize = 0;
    while i < cs.len()
        invariant
            i <= cs@.len(),
            s@ == cs@.subrange(0, i as int),
        decreases cs@.len() - i,
    {
        s.push(cs[i]);
        i = i + 1;
        assert(s@ =~= cs@.subrange(0, i as int));
    }
    assert(s@ =~= cs@);
    s
}

/// The UTF-16 code units of one char.
pub fn utf16_units_of_char(c: char) -> (v: Vec<u16>)
    ensures
        v@ == utf16_of_scalar(c as u32),
{
    let cp = c as u32;
    let mut v: Vec<u16> = Vec::new();
    if cp < 0x10000 {
        v.push(cp as u16);
    } else {
        let w = cp - 0x10000;
        v.push((0xD800 + w / 1024) as u16);
        v.push((0xDC00 + w % 1024) as u16);
    }
    assert(v@ =~= utf16_of_scalar(c as u32));
    v
}

/// UTF-16 encoding of a char sequence.
pub fn utf16_encode_chars(cs: &[char]) -> (v: Vec<u16>)
    ensures
        v@ == utf16_encode(cs@),
{
    let mut v: Vec<u16> = Vec::new();
    let mut i: usize = 0;
    while i < cs.len()
        invariant
            i <= cs@.len(),
            v@ == utf16_encode(cs@.subrange(0, i as int)),
        decreases cs@.len() - i,
    {
        let units = utf16_units_of_char(cs[i]);
        let mut k: usize = 0;
        let ghost before = v@;
        while k < units.len()
            invariant
                k <= units@.len(),
                v@ == before + units@.subrange(0, k as int),
            decreases units@.len() - k,
        {
            v.push(units[k]);
            k = k + 1;
            assert(v@ =~= before + units@.subrange(0, k as int));
        }
        proof {
            let next = cs@.subrange(0, i + 1);
            assert(next.drop_last() =~= cs@.subrange(0, i as int));
            assert(units@.subrange(0, units@.len() as int) =~= units@);
        }
        i = i + 1;
    }
    assert(cs@.subrange(0, cs@.len() as int) =~= cs@);
    v
}

/// UTF-16 encoding of a string slice.
pub fn utf16_encode_str(s: &str) -> (v: Vec<u16>)
    ensures
        v@ == utf16_encode(s@),
{
    let cs = chars_of(s);
    utf16_encode_chars(cs.as_slice())
}

/// Decodes UTF-16 code units; `None` when a surrogate is unpaired.
pub fn utf16_decode_units(units: &[u16]) -> (r: Option<String>)
    ensures
        match r {
            Some(s) => utf16_decode(units@) == Some(s@),
            None => utf16_decode(units@) is None,
        },
{
    let mut out = String::new();
    let mut i: usize = 0;
    proof {
        assert(units@.skip(0) =~= units@);
        match utf16_decode(units@) {
            Some(r) => {
                assert(out@ + r =~= r);
            },
            None => {},
        }
    }
    while i < units.len()
        invariant
            i <= units@.len(),
            utf16_decode(units@) == match utf16_decode(units@.skip(i as int)) {
                Some(rest) => Some(out@ + rest),
                None => None::<Seq<char>>,
            },
        decreases units@.len() - i,
    {
        let u = units[i];
        let ghost rest = units@.skip(i as int);
        if u < 0xD800 || u > 0xDFFF {
            let c = char::from_u32(u as u32);
            match c {
                Some(ch) => {
                    proof {
                        assert(rest.drop_first() =~= units@.skip(i + 1));
                        char_u32_cast(ch, u as u32);
                        assert(ch == (u as u32) as char);
                        match utf16_decode(units@.skip(i + 1)) {
                            Some(r2) => {
                                assert(out@.push(ch) + r2 =~= out@ + (seq![ch] + r2));
                            },
                            None => {},
                        }
                    }
                    out.push(ch);
                    i = i + 1;
                },
                None => {
                    proof {
                        assert(is_scalar(u as u32));
                    }
                    return None;
                },
            }
        } else if u <= 0xDBFF && i + 1 < units.len() && units[i + 1] >= 0xDC00 && units[i + 1]
            <= 0xDFFF {
            let lo = units[i + 1];
            let cp: u32 = 0x10000 + (u as u32 - 0xD800) * 1024 + (lo as u32 - 0xDC00);
            let c = char::from_u32(cp);
            match c {
                Some(ch) => {
                    proof {
                        assert(rest.skip(2) =~= units@.skip(i + 2));
                        assert(rest[0] == u && rest[1] == lo);
                        char_u32_cast(ch, cp);
                        assert(ch == cp as char);
                        match utf16_decode(units@.skip(i + 2)) {
                            Some(r2) => {
                                assert(out@.push(ch) + r2 =~= out@ + (seq![ch] + r2));
                            },
                            None => {},
                        }
                    }
                    out.push(ch);
                    i = i + 2;
                },
                None => {
                    proof {
                        assert(is_scalar(cp));
                    }
                    return None;
                },
            }
        } else {
            proof {
                assert(rest[0] == u);
                assert(i + 1 < units.len() ==> rest[1] == units@[i + 1]);
            }
            return None;
        }
    }
    proof {
        assert(units@.skip(i as int) =~= Seq::<u16>::empty());
        assert(out@ + Seq::<char>::empty() =~= out@);
    }
    Some(out)
}

/// The UTF-8 bytes of one Unicode scalar value.
pub fn utf8_encode_scalar(v: u32) -> (b: Vec<u8>)
    requires
        is_scalar(v),
    ensures
        b@ == encode_scalar(v),
{
    let mut b: Vec<u8> = Vec::new();
    if v <= 0x7F {
        b.push((v & 0x7F) as u8);
    } else if v <= 0x7FF {
        b.push(0xC0 | ((v >> 6) & 0x1F) as u8);
        b.push(0x80 | (v & 0x3F) as u8);
    } else if v <= 0xFFFF {
        b.push(0xE0 | ((v >> 12) & 0x0F) as u8);
        b.push(0x80 | ((v >> 6) & 0x3F) as u8);
        b.push(0x80 | (v & 0x3F) as u8);
    } else {
        b.push(0xF0 | ((v >> 18) & 0x7) as u8);
        b.push(0x80 | ((v >> 12) & 0x3F) as u8);
        b.push(0x80 | ((v >> 6) & 0x3F) as u8);
        b.push(0x80 | (v & 0x3F) as u8);
    }
    assert(b@ =~= encode_scalar(v));
    b
}

/// The UTF-8 bytes of a string slice.
pub fn utf8_bytes(s: &str) -> (b: Vec<u8>)
    ensures
        b@ == encode_utf8(s@),
{
    s.as_bytes_vec()
}

} // verus!
