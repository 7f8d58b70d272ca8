//! `NSTimeZone`: a small table of zone names, standard offsets and
//! abbreviations. Daylight saving time is not modelled.
use vstd::prelude::*;

verus! {

/// Zone name, seconds east of GMT, abbreviation. Rows named by an
/// abbreviation let abbreviations be looked up as names.
pub open spec fn zone_table_spec() -> Seq<(&'static str, i32, &'static str)> {
    seq![
        ("UTC", 0i32, "UTC"),
        ("GMT", 0i32, "GMT"),
        ("America/New_York", -18000i32, "EST"),
        ("America/Chicago", -21600i32, "CST"),
        ("America/Denver", -25200i32, "MST"),
        ("America/Phoenix", -25200i32, "MST"),
        ("America/Los_Angeles", -28800i32, "PST"),
        ("America/Anchorage", -32400i32, "AKST"),
        ("Pacific/Honolulu", -36000i32, "HST"),
        ("Canada/Eastern", -18000i32, "EST"),
        ("Canada/Central", -21600i32, "CST"),
        ("Canada/Mountain", -25200i32, "MST"),
        ("Canada/Pacific", -28800i32, "PST"),
        ("Europe/London", 0i32, "GMT"),
        ("Europe/Paris", 3600i32, "CET"),
        ("Europe/Berlin", 3600i32, "CET"),
        ("Europe/Warsaw", 3600i32, "CET"),
        ("Europe/Helsinki", 7200i32, "EET"),
        ("Europe/Moscow", 10800i32, "MSK"),
        ("Asia/Kolkata", 19800i32, "IST"),
        ("Asia/Shanghai", 28800i32, "CST"),
        ("Asia/Tokyo", 32400i32, "JST"),
        ("Asia/Seoul", 32400i32, "KST"),
        ("Australia/Sydney", 36000i32, "AEST"),
        ("EST", -18000i32, "EST"),
        ("CST", -21600i32, "CST"),
        ("MST", -25200i32, "MST"),
        ("PST", -28800i32, "PST"),
        ("JST", 32400i32, "JST"),
        ("IST", 19800i32, "IST"),
        ("CET", 3600i32, "CET"),
        ("EET", 7200i32, "EET"),
        ("MSK", 10800i32, "MSK"),
    ]
}

pub fn zone_table() -> (t: Vec<(&'static str, i32, &'static str)>)
    ensures
        t@ == zone_table_spec(),
{
    let t = vec![
        ("UTC", 0i32, "UTC"),
        ("GMT", 0i32, "GMT"),
        ("America/New_York", -18000i32, "EST"),
        ("America/Chicago", -21600i32, "CST"),
        ("America/Denver", -25200i32, "MST"),
        ("America/Phoenix", -25200i32, "MST"),
        ("America/Los_Angeles", -28800i32, "PST"),
        ("America/Anchorage", -32400i32, "AKST"),
        ("Pacific/Honolulu", -36000i32, "HST"),
        ("Canada/Eastern", -18000i32, "EST"),
        ("Canada/Central", -21600i32, "CST"),
        ("Canada/Mountain", -25200i32, "MST"),
        ("Canada/Pacific", -28800i32, "PST"),
        ("Europe/London", 0i32, "GMT"),
        ("Europe/Paris", 3600i32, "CET"),
        ("Europe/Berlin", 3600i32, "CET"),
        ("Europe/Warsaw", 3600i32, "CET"),
        ("Europe/Helsinki", 7200i32, "EET"),
        ("Europe/Moscow", 10800i32, "MSK"),
        ("Asia/Kolkata", 19800i32, "IST"),
        ("Asia/Shanghai", 28800i32, "CST"),
        ("Asia/Tokyo", 32400i32, "JST"),
        ("Asia/Seoul", 32400i32, "KST"),
        ("Australia/Sydney", 36000i32, "AEST"),
        ("EST", -18000i32, "EST"),
        ("CST", -21600i32, "CST"),
        ("MST", -25200i32, "MST"),
        ("PST", -28800i32, "PST"),
        ("JST", 32400i32, "JST"),
        ("IST", 19800i32, "IST"),
        ("CET", 3600i32, "CET"),
        ("EET", 7200i32, "EET"),
        ("MSK", 10800i32, "MSK"),
    ];
    assert(t@ =~= zone_table_spec());
    t
}

/// Index of the first row whose name is `key` (or, `by_abbr`, whose
/// abbreviation is `key`, and where `both`, whose name is `key` too).
pub open spec fn first_row(t: Seq<(&'static str, i32, &'static str)>, key: Seq<char>, by_abbr: bool, both: bool) -> Option<int>
    decreases t.len(),
{
    if t.len() == 0 {
        None
    } else {
        match first_row(t.drop_last(), key, by_abbr, both) {
            Some(i) => Some(i),
            None => {
                let r = t.last();
                let hit = if by_abbr {
                    r.2@ == key && (!both || r.0@ == key)
                } else {
                    r.0@ == key
                };
                if hit {
                    Some(t.len() - 1)
                } else {
                    None
                }
            },
        }
    }
}

proof fn lemma_first_row_prefix(t: Seq<(&'static str, i32, &'static str)>, key: Seq<char>, by_abbr: bool, both: bool, n: int)
    requires
        0 <= n <= t.len(),
        first_row(t.subrange(0, n), key, by_abbr, both) is Some,
    ensures
        first_row(t, key, by_abbr, both) == first_row(t.subrange(0, n), key, by_abbr, both),
    decreases t.len() - n,
{
    if n < t.len() {
        assert(t.subrange(0, n + 1).drop_last() =~= t.subrange(0, n));
        lemma_first_row_prefix(t, key, by_abbr, both, n + 1);
    } else {
        assert(t.subrange(0, n) =~= t);
    }
}

proof fn lemma_first_row_bound(t: Seq<(&'static str, i32, &'static str)>, key: Seq<char>, by_abbr: bool, both: bool)
    ensures
        first_row(t, key, by_abbr, both) matches Some(i) ==> 0 <= i < t.len(),
    decreases t.len(),
{
    if t.len() > 0 {
        lemma_first_row_bound(t.drop_last(), key, by_abbr, both);
    }
}

fn str_eq(a: &str, b: &str) -> (r: bool)
    ensures
        r == (a@ == b@),
{
    a.to_owned() == b.to_owned()
}

fn find_row(t: &Vec<(&'static str, i32, &'static str)>, key: &str, by_abbr: bool, both: bool) -> (r: Option<usize>)
    ensures
        r matches Some(k) ==> first_row(t@, key@, by_abbr, both) == Some(k as int),
        r is None ==> first_row(t@, key@, by_abbr, both) is None,
{
    let mut i: usize = 0;
    while i < t.len()
        invariant
            i <= t@.len(),
            first_row(t@.subrange(0, i as int), key@, by_abbr, both) is None,
        decreases t@.len() - i,
    {
        let (name, _off, abbr) = t[i];
        let hit = if by_abbr {
            str_eq(abbr, key) && (!both || str_eq(name, key))
        } else {
            str_eq(name, key)
        };
        assert(t@.subrange(0, i + 1).drop_last() =~= t@.subrange(0, i as int));
        if hit {
            proof {
                lemma_first_row_prefix(t@, key@, by_abbr, both, i + 1);
            }
            return Some(i);
        }
        i = i + 1;
    }
    assert(t@.subrange(0, t@.len() as int) =~= t@);
    None
}

/// The standard offset of the zone named `name`.
pub fn offset_for_name(name: &str) -> (r: Option<i32>)
    ensures
        r == match first_row(zone_table_spec(), name@, false, false) {
            Some(i) => Some(zone_table_spec()[i].1),
            None => None,
        },
{
    let t = zone_table();
    proof {
        lemma_first_row_bound(t@, name@, false, false);
    }
    match find_row(&t, name, false, false) {
        Some(i) => Some(t[i].1),
        None => None,
    }
}

/// The abbreviation of the zone named `name`.
pub fn abbr_for_name(name: &str) -> (r: Option<&'static str>)
    ensures
        r == match first_row(zone_table_spec(), name@, false, false) {
            Some(i) => Some(zone_table_spec()[i].2),
            None => None,
        },
{
    let t = zone_table();
    proof {
        lemma_first_row_bound(t@, name@, false, false);
    }
    match find_row(&t, name, false, false) {
        Some(i) => Some(t[i].2),
        None => None,
    }
}

/// The zone name for an abbreviation: a row named by the abbreviation
/// itself if there is one, else the first row with that abbreviation.
pub fn name_for_abbr(abbr: &str) -> (r: Option<&'static str>)
    ensures
        r == match first_row(zone_table_spec(), abbr@, true, true) {
            Some(i) => Some(zone_table_spec()[i].0),
            None => match first_row(zone_table_spec(), abbr@, true, false) {
                Some(i) => Some(zone_table_spec()[i].0),
                None => None,
            },
        },
{
    let t = zone_table();
    proof {
        lemma_first_row_bound(t@, abbr@, true, true);
        lemma_first_row_bound(t@, abbr@, true, false);
    }
    match find_row(&t, abbr, true, true) {
        Some(i) => Some(t[i].0),
        None => match find_row(&t, abbr, true, false) {
            Some(i) => Some(t[i].0),
            None => None,
        },
    }
}

} // verus!
