//! `NSLocale`: the locale singletons and the parsing of locale identifiers.
use vstd::prelude::*;
use crate::objc::id;
use crate::unicode::{chars_of, string_from_chars};

verus! {

/// The cached locale objects.
pub struct State {
    pub current_locale: Option<id>,
    pub system_locale: Option<id>,
    pub preferred_languages: Option<id>,
}

impl Default for State {
    fn default() -> (s: State)
        ensures
            s.current_locale is None,
            s.system_locale is None,
            s.preferred_languages is None,
    {
        State { current_locale: None, system_locale: None, preferred_languages: None }
    }
}

/// Position of the first `c` in `s`.
pub open spec fn find_char(s: Seq<char>, c: char) -> Option<int>
    decreases s.len(),
{
    if s.len() == 0 {
        None
    } else if s.last() == c && find_char(s.drop_last(), c) is None {
        Some(s.len() - 1)
    } else {
        find_char(s.drop_last(), c)
    }
}

/// The first `_`, or failing that the first `-`.
pub open spec fn separator(s: Seq<char>) -> Option<int> {
    match find_char(s, '_') {
        Some(i) => Some(i),
        None => find_char(s, '-'),
    }
}

fn find_char_exec(s: &[char], c: char) -> (r: Option<usize>)
    ensures
        r matches Some(k) ==> find_char(s@, c) == Some(k as int),
        r is None ==> find_char(s@, c) is None,
{
    let mut i: usize = 0;
    while i < s.len()
        invariant
            i <= s@.len(),
            find_char(s@.subrange(0, i as int), c) is None,
        decreases s@.len() - i,
    {
        if s[i] == c {
            proof {
                lemma_find_char_prefix(s@, c, i as int + 1);
                assert(s@.subrange(0, i + 1).drop_last() =~= s@.subrange(0, i as int));
            }
            return Some(i);
        }
        assert(s@.subrange(0, i + 1).drop_last() =~= s@.subrange(0, i as int));
        i = i + 1;
    }
    assert(s@.subrange(0, s@.len() as int) =~= s@);
    None
}

/// A match in a prefix is the match in the whole.
proof fn lemma_find_char_prefix(s: Seq<char>, c: char, n: int)
    requires
        0 <= n <= s.len(),
        find_char(s.subrange(0, n), c) is Some,
    ensures
        find_char(s, c) == find_char(s.subrange(0, n), c),
    decreases s.len() - n,
{
    if n < s.len() {
        assert(s.subrange(0, n + 1).drop_last() =~= s.subrange(0, n));
        lemma_find_char_prefix(s, c, n + 1);
    } else {
        assert(s.subrange(0, n) =~= s);
    }
}

fn separator_exec(s: &[char]) -> (r: Option<usize>)
    ensures
        r matches Some(k) ==> separator(s@) == Some(k as int),
        r is None ==> separator(s@) is None,
{
    match find_char_exec(s, '_') {
        Some(i) => Some(i),
        None => find_char_exec(s, '-'),
    }
}

proof fn lemma_find_char_bound(s: Seq<char>, c: char)
    ensures
        find_char(s, c) matches Some(i) ==> 0 <= i < s.len() && s[i] == c,
    decreases s.len(),
{
    if s.len() > 0 {
        lemma_find_char_bound(s.drop_last(), c);
    }
}

/// The language part of a locale identifier: what comes before the first
/// separator (`_`, else `-`), or the whole.
pub open spec fn language_part(id: Seq<char>) -> Seq<char> {
    match separator(id) {
        Some(i) => id.subrange(0, i),
        None => id,
    }
}

/// The country part: after the separator, and after a script code if there
/// is one (`zh_Hans_CN` gives `CN`).
pub open spec fn country_part(id: Seq<char>) -> Option<Seq<char>> {
    match separator(id) {
        None => None,
        Some(i) => {
            let rest = id.subrange(i + 1, id.len() as int);
            match separator(rest) {
                Some(j) => Some(rest.subrange(j + 1, rest.len() as int)),
                None => Some(rest),
            }
        },
    }
}

fn chars_range(cs: &[char], from: usize, to: usize) -> (s: String)
    requires
        from <= to <= cs@.len(),
    ensures
        s@ == cs@.subrange(from as int, to as int),
{
    let mut v: Vec<char> = Vec::new();
    let mut i = from;
    while i < to
        invariant
            from <= i <= to,
            to <= cs@.len(),
            v@ == cs@.subrange(from as int, i as int),
        decreases to - i,
    {
        v.push(cs[i]);
        i = i + 1;
        assert(v@ =~= cs@.subrange(from as int, i as int));
    }
    string_from_chars(v.as_slice())
}

pub fn language_from_locale_identifier(identifier: &str) -> (r: String)
    ensures
        r@ == language_part(identifier@),
{
    let cs = chars_of(identifier);
    proof {
        lemma_find_char_bound(cs@, '_');
        lemma_find_char_bound(cs@, '-');
    }
    match separator_exec(cs.as_slice()) {
        Some(i) => chars_range(cs.as_slice(), 0, i),
        None => {
            assert(cs@.subrange(0, cs@.len() as int) =~= cs@);
            chars_range(cs.as_slice(), 0, cs.len())
        },
    }
}

pub fn country_from_locale_identifier(identifier: &str) -> (r: Option<String>)
    ensures
        match country_part(identifier@) {
            Some(c) => r matches Some(s) && s@ == c,
            None => r is None,
        },
{
    let cs = chars_of(identifier);
    proof {
        lemma_find_char_bound(cs@, '_');
        lemma_find_char_bound(cs@, '-');
    }
    let sep = match separator_exec(cs.as_slice()) {
        Some(i) => i,
        None => {
            return None;
        },
    };
    assert(sep < cs.len());
    let rest_s = chars_range(cs.as_slice(), sep + 1, cs.len());
    let rest = chars_of(rest_s.as_str());
    proof {
        lemma_find_char_bound(rest@, '_');
        lemma_find_char_bound(rest@, '-');
    }
    match separator_exec(rest.as_slice()) {
        Some(j) => {
            assert(j < rest.len());
            Some(chars_range(rest.as_slice(), j + 1, rest.len()))
        },
        None => Some(rest_s),
    }
}

/// A locale identifier such as `en_US` (just the language where the
/// country is empty).
pub fn locale_identifier(language: &str, country: &str) -> (r: String)
    ensures
        r@ == if country@.len() == 0 {
            language@
        } else {
            language@ + seq!['_'] + country@
        },
{
    let lc = chars_of(language);
    let cc = chars_of(country);
    if cc.len() == 0 {
        return string_from_chars(lc.as_slice());
    }
    let mut v = lc;
    v.push('_');
    let mut i: usize = 0;
    let ghost start = v@;
    while i < cc.len()
        invariant
            i <= cc@.len(),
            v@ == start + cc@.subrange(0, i as int),
        decreases cc@.len() - i,
    {
        v.push(cc[i]);
        i = i + 1;
        assert(v@ =~= start + cc@.subrange(0, i as int));
    }
    assert(cc@.subrange(0, cc@.len() as int) =~= cc@);
    string_from_chars(v.as_slice())
}

/// The preferred languages: those given as an option, else those of the
/// system, else English.
pub fn get_preferred_languages(option: Option<Vec<String>>, system: Vec<String>) -> (r: Vec<String>)
    ensures
        option is Some ==> r == option->0,
        option is None && system@.len() > 0 ==> r == system,
        option is None && system@.len() == 0 ==> r@.len() == 1 && r@[0]@ == "en"@,
{
    if let Some(langs) = option {
        return langs;
    }
    if system.len() == 0 {
        let mut v: Vec<String> = Vec::new();
        v.push("en".to_owned());
        v
    } else {
        system
    }
}

/// The preferred countries: those of the system, else the United States.
pub fn get_preferred_countries(system: Vec<String>) -> (r: Vec<String>)
    ensures
        system@.len() > 0 ==> r == system,
        system@.len() == 0 ==> r@.len() == 1 && r@[0]@ == "US"@,
{
    if system.len() == 0 {
        let mut v: Vec<String> = Vec::new();
        v.push("US".to_owned());
        v
    } else {
        system
    }
}

} // verus!
