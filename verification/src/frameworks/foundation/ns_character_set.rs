//! `NSCharacterSet`: building sets of UTF-16 code units from code point
//! ranges.
use vstd::prelude::*;
use std::collections::HashSet;
use crate::frameworks::foundation::NSRange;

verus! {

broadcast use vstd::std_specs::hash::group_hash_axioms;

/// Code point `cp` of range `j` gives the unit `u` (over the Basic
/// Multilingual Plane only, where `bmp_only`; cut to 16 bits otherwise).
pub open spec fn range_hit(ranges: Seq<(u32, u32)>, bmp_only: bool, j: int, cp: u32, u: u16) -> bool {
    &&& 0 <= j < ranges.len()
    &&& ranges[j].0 <= cp <= ranges[j].1
    &&& (!bmp_only || cp <= 0xFFFF)
    &&& cp as u16 == u
}

/// The units given by all the ranges.
pub open spec fn range_units(ranges: Seq<(u32, u32)>, bmp_only: bool) -> Set<u16> {
    Set::new(|u: u16| exists|j: int, cp: u32| #[trigger] range_hit(ranges, bmp_only, j, cp, u))
}

/// The units given by the first `k` ranges and by the code points of range
/// `k` below `c`.
pub open spec fn partial_units(ranges: Seq<(u32, u32)>, bmp_only: bool, k: int, c: int) -> Set<u16> {
    Set::new(
        |u: u16|
            exists|j: int, cp: u32| #[trigger]
                range_hit(ranges, bmp_only, j, cp, u) && (j < k || (j == k && cp < c)),
    )
}

fn range_set(ranges: &[(u32, u32)], bmp_only: bool) -> (set: HashSet<u16>)
    ensures
        set@ == range_units(ranges@, bmp_only),
{
    let mut set: HashSet<u16> = HashSet::new();
    let mut k: usize = 0;
    let ghost rs = ranges@;
    assert(set@ =~= partial_units(rs, bmp_only, 0, 0));
    while k < ranges.len()
        invariant
            rs == ranges@,
            k <= rs.len(),
            set@ == partial_units(rs, bmp_only, k as int, 0),
        decreases rs.len() - k,
    {
        let (lo, hi) = ranges[k];
        assert(set@ =~= partial_units(rs, bmp_only, k as int, lo as int)) by {
            assert forall|u: u16| partial_units(rs, bmp_only, k as int, lo as int).contains(u) implies set@.contains(u) by {
                let (j, cp) = choose|j: int, cp: u32| #[trigger]
                    range_hit(rs, bmp_only, j, cp, u) && (j < k || (j == k && cp < lo));
                assert(range_hit(rs, bmp_only, j, cp, u) && (j < k || (j == k && cp < 0)));
            }
            assert forall|u: u16| set@.contains(u) implies partial_units(rs, bmp_only, k as int, lo as int).contains(u) by {
                let (j, cp) = choose|j: int, cp: u32| #[trigger]
                    range_hit(rs, bmp_only, j, cp, u) && (j < k || (j == k && cp < 0));
                assert(range_hit(rs, bmp_only, j, cp, u) && (j < k || (j == k && cp < lo)));
            }
        }
        let mut c: u64 = lo as u64;
        while c <= hi as u64
            invariant
                rs == ranges@,
                k < rs.len(),
                rs[k as int] == (lo, hi),
                lo <= c,
                c <= hi as u64 + 1 || c == lo as u64,
                set@ == partial_units(rs, bmp_only, k as int, c as int),
            decreases hi as u64 + 1 - c,
        {
            let cp = c as u32;
            let keep = !bmp_only || cp <= 0xFFFF;
            let ghost before = set@;
            if keep {
                set.insert(cp as u16);
            }
            proof {
                let next = partial_units(rs, bmp_only, k as int, c + 1);
                assert forall|u: u16| next.contains(u) implies set@.contains(u) by {
                    let (j, cq) = choose|j: int, cq: u32| #[trigger]
                        range_hit(rs, bmp_only, j, cq, u) && (j < k || (j == k && cq < c + 1));
                    if j == k && cq == c {
                        assert(cq == cp);
                    } else {
                        assert(before.contains(u));
                    }
                }
                assert forall|u: u16| set@.contains(u) implies next.contains(u) by {
                    if keep && u == cp as u16 && !before.contains(u) {
                        assert(range_hit(rs, bmp_only, k as int, cp, u));
                    } else {
                        let (j, cq) = choose|j: int, cq: u32| #[trigger]
                            range_hit(rs, bmp_only, j, cq, u) && (j < k || (j == k && cq < c));
                        assert(range_hit(rs, bmp_only, j, cq, u) && (j < k || (j == k && cq < c + 1)));
                    }
                }
                assert(set@ =~= next);
            }
            c = c + 1;
        }
        proof {
            let next = partial_units(rs, bmp_only, k + 1, 0);
            let cur = partial_units(rs, bmp_only, k as int, c as int);
            assert forall|u: u16| next.contains(u) implies cur.contains(u) by {
                let (j, cq) = choose|j: int, cq: u32| #[trigger]
                    range_hit(rs, bmp_only, j, cq, u) && (j < k + 1 || (j == k + 1 && cq < 0));
                assert(range_hit(rs, bmp_only, j, cq, u) && (j < k || (j == k && cq < c)));
            }
            assert forall|u: u16| cur.contains(u) implies next.contains(u) by {
                let (j, cq) = choose|j: int, cq: u32| #[trigger]
                    range_hit(rs, bmp_only, j, cq, u) && (j < k || (j == k && cq < c));
                assert(range_hit(rs, bmp_only, j, cq, u) && (j < k + 1 || (j == k + 1 && cq < 0)));
            }
            assert(set@ =~= next);
        }
        k = k + 1;
    }
    proof {
        let all = range_units(rs, bmp_only);
        let cur = partial_units(rs, bmp_only, k as int, 0);
        assert forall|u: u16| all.contains(u) implies cur.contains(u) by {
            let (j, cq) = choose|j: int, cq: u32| #[trigger] range_hit(rs, bmp_only, j, cq, u);
            assert(range_hit(rs, bmp_only, j, cq, u) && (j < k || (j == k && cq < 0)));
        }
        assert forall|u: u16| cur.contains(u) implies all.contains(u) by {
            let (j, cq) = choose|j: int, cq: u32| #[trigger]
                range_hit(rs, bmp_only, j, cq, u) && (j < k || (j == k && cq < 0));
            assert(range_hit(rs, bmp_only, j, cq, u));
        }
        assert(set@ =~= all);
    }
    set
}

/// The units of all code points in the ranges, each cut to 16 bits.
pub fn ascii_range_set(ranges: &[(u32, u32)]) -> (set: HashSet<u16>)
    ensures
        set@ == range_units(ranges@, false),
{
    range_set(ranges, false)
}

/// The units of the code points in the ranges that lie in the Basic
/// Multilingual Plane.
pub fn unicode_range_set(ranges: &[(u32, u32)]) -> (set: HashSet<u16>)
    ensures
        set@ == range_units(ranges@, true),
{
    range_set(ranges, true)
}

/// The host-side data of a character set: the code units it lists, and
/// whether it holds exactly those or exactly the others.
pub struct CharacterSetHostObject {
    pub set: HashSet<u16>,
    pub inverted: bool,
}

/// The code units from `lo` up to (not including) `hi` (code points beyond
/// the Basic Multilingual Plane are left out).
pub open spec fn units_in(lo: int, hi: int) -> Set<u16> {
    Set::new(|u: u16| lo <= u < hi)
}

/// The code units `0..k`.
pub open spec fn units_below(k: int) -> Set<u16> {
    Set::new(|u: u16| u < k)
}

impl CharacterSetHostObject {
    /// Whether a code unit belongs to the set.
    pub open spec fn is_member(&self, u: u16) -> bool {
        self.set@.contains(u) != self.inverted
    }

    /// An empty set.
    pub fn new() -> (r: Self)
        ensures
            r.set@ == Set::<u16>::empty(),
            !r.inverted,
    {
        CharacterSetHostObject { set: HashSet::new(), inverted: false }
    }

    /// The set of the code units of a string (`characterSetWithCharactersInString:`).
    pub fn with_characters(units: &[u16]) -> (r: Self)
        ensures
            r.set@ == units@.to_set(),
            !r.inverted,
    {
        let mut r = Self::new();
        r.add_characters(units);
        r
    }

    /// The set of the code points in `range` that lie in the Basic
    /// Multilingual Plane (`characterSetWithRange:`).
    pub fn with_range(range: NSRange) -> (r: Self)
        requires
            range.location + range.length <= u32::MAX,
        ensures
            r.set@ == units_in(range.location as int, range.location + range.length),
            !r.inverted,
    {
        let mut r = Self::new();
        r.add_range(range);
        assert(r.set@ =~= units_in(range.location as int, range.location + range.length));
        r
    }

    /// `characterIsMember:`.
    pub fn character_is_member(&self, u: u16) -> (r: bool)
        ensures
            r == self.is_member(u),
    {
        self.set.contains(&u) ^ self.inverted
    }

    /// `hasMemberInPlane:`: only the Basic Multilingual Plane is tracked; it
    /// has a member where the listed units are not empty, or, for an
    /// inverted set, where they are.
    pub fn has_member_in_plane(&self, plane: u8) -> (r: bool)
        ensures
            r == (plane == 0 && (!self.set@.is_empty() != self.inverted)),
    {
        if plane != 0 {
            return false;
        }
        !self.set.is_empty() ^ self.inverted
    }

    /// `isSupersetOfSet:`: every unit listed by `other` is a member of this
    /// set; false where `other` is inverted.
    pub fn is_superset_of(&self, other: &CharacterSetHostObject) -> (r: bool)
        ensures
            r == (!other.inverted && forall|u: u16| #[trigger] other.set@.contains(u) ==> self.is_member(u)),
    {
        if other.inverted {
            return false;
        }
        let mut c: u32 = 0;
        while c < 0x10000
            invariant
                c <= 0x10000,
                forall|u: u16| u < c && #[trigger] other.set@.contains(u) ==> self.is_member(u),
            decreases 0x10000 - c,
        {
            let u = c as u16;
            if other.set.contains(&u) && !(self.set.contains(&u) ^ self.inverted) {
                return false;
            }
            c = c + 1;
        }
        true
    }

    /// `isEqual:` between two character sets: the same listed units and the
    /// same inversion.
    pub fn equals(&self, other: &CharacterSetHostObject) -> (r: bool)
        ensures
            r == (self.set@ == other.set@ && self.inverted == other.inverted),
    {
        if self.inverted != other.inverted {
            return false;
        }
        let mut c: u32 = 0;
        while c < 0x10000
            invariant
                c <= 0x10000,
                forall|u: u16| u < c ==> (#[trigger] self.set@.contains(u) == other.set@.contains(u)),
            decreases 0x10000 - c,
        {
            let u = c as u16;
            if self.set.contains(&u) != other.set.contains(&u) {
                assert(self.set@.contains(u) != other.set@.contains(u));
                return false;
            }
            c = c + 1;
        }
        assert(self.set@ =~= other.set@);
        true
    }

    /// A copy of the set (`mutableCopy`, `copy`); with `invert`, the
    /// inverted set (`invertedSet`).
    pub fn copy(&self, invert: bool) -> (r: Self)
        ensures
            r.set@ == self.set@,
            r.inverted == (self.inverted != invert),
    {
        let mut set: HashSet<u16> = HashSet::new();
        let mut c: u32 = 0;
        while c < 0x10000
            invariant
                c <= 0x10000,
                set@ == self.set@.intersect(units_below(c as int)),
            decreases 0x10000 - c,
        {
            let u = c as u16;
            if self.set.contains(&u) {
                set.insert(u);
            }
            assert(set@ =~= self.set@.intersect(units_below(c + 1)));
            c = c + 1;
        }
        assert(set@ =~= self.set@);
        CharacterSetHostObject { set, inverted: self.inverted ^ invert }
    }

    /// `addCharactersInString:`: lists each code unit of the string.
    pub fn add_characters(&mut self, units: &[u16])
        ensures
            final(self).set@ == old(self).set@.union(units@.to_set()),
            final(self).inverted == old(self).inverted,
    {
        let mut i: usize = 0;
        while i < units.len()
            invariant
                i <= units@.len(),
                self.set@ == old(self).set@.union(units@.subrange(0, i as int).to_set()),
                self.inverted == old(self).inverted,
            decreases units@.len() - i,
        {
            self.set.insert(units[i]);
            proof {
                assert(units@.subrange(0, i + 1) =~= units@.subrange(0, i as int).push(units@[i as int]));
                units@.subrange(0, i as int).lemma_push_to_set_commute(units@[i as int]);
            }
            assert(self.set@ =~= old(self).set@.union(units@.subrange(0, i + 1).to_set()));
            i = i + 1;
        }
        assert(units@.subrange(0, units@.len() as int) =~= units@);
    }

    /// `removeCharactersInString:`: no longer lists any code unit of the
    /// string.
    pub fn remove_characters(&mut self, units: &[u16])
        ensures
            final(self).set@ == old(self).set@.difference(units@.to_set()),
            final(self).inverted == old(self).inverted,
    {
        let mut i: usize = 0;
        while i < units.len()
            invariant
                i <= units@.len(),
                self.set@ == old(self).set@.difference(units@.subrange(0, i as int).to_set()),
                self.inverted == old(self).inverted,
            decreases units@.len() - i,
        {
            self.set.remove(&units[i]);
            proof {
                assert(units@.subrange(0, i + 1) =~= units@.subrange(0, i as int).push(units@[i as int]));
                units@.subrange(0, i as int).lemma_push_to_set_commute(units@[i as int]);
            }
            assert(self.set@ =~= old(self).set@.difference(units@.subrange(0, i + 1).to_set()));
            i = i + 1;
        }
        assert(units@.subrange(0, units@.len() as int) =~= units@);
    }

    /// `addCharactersInRange:`: lists the code points of the range that lie
    /// in the Basic Multilingual Plane.
    pub fn add_range(&mut self, range: NSRange)
        requires
            range.location + range.length <= u32::MAX,
        ensures
            final(self).set@ == old(self).set@.union(units_in(range.location as int, range.location + range.length)),
            final(self).inverted == old(self).inverted,
    {
        let end = range.location + range.length;
        let mut cp = range.location;
        while cp < end
            invariant
                range.location <= cp,
                end == range.location + range.length,
                cp <= end || cp == range.location,
                self.set@ == old(self).set@.union(units_in(range.location as int, cp as int)),
                self.inverted == old(self).inverted,
            decreases end - cp,
        {
            if cp <= 0xFFFF {
                self.set.insert(cp as u16);
            }
            assert(self.set@ =~= old(self).set@.union(units_in(range.location as int, cp + 1)));
            cp = cp + 1;
        }
        assert(self.set@ =~= old(self).set@.union(units_in(range.location as int, range.location + range.length)));
    }

    /// `removeCharactersInRange:`: no longer lists the code points of the
    /// range.
    pub fn remove_range(&mut self, range: NSRange)
        requires
            range.location + range.length <= u32::MAX,
        ensures
            final(self).set@ == old(self).set@.difference(units_in(range.location as int, range.location + range.length)),
            final(self).inverted == old(self).inverted,
    {
        let end = range.location + range.length;
        let mut cp = range.location;
        while cp < end
            invariant
                range.location <= cp,
                end == range.location + range.length,
                cp <= end || cp == range.location,
                self.set@ == old(self).set@.difference(units_in(range.location as int, cp as int)),
                self.inverted == old(self).inverted,
            decreases end - cp,
        {
            if cp <= 0xFFFF {
                self.set.remove(&(cp as u16));
            }
            assert(self.set@ =~= old(self).set@.difference(units_in(range.location as int, cp + 1)));
            cp = cp + 1;
        }
        assert(self.set@ =~= old(self).set@.difference(units_in(range.location as int, range.location + range.length)));
    }

    /// `unionWithCharacterSet:`: also lists the units that `other` lists.
    pub fn union_with(&mut self, other: &CharacterSetHostObject)
        ensures
            final(self).set@ == old(self).set@.union(other.set@),
            final(self).inverted == old(self).inverted,
    {
        let mut c: u32 = 0;
        while c < 0x10000
            invariant
                c <= 0x10000,
                self.set@ == old(self).set@.union(other.set@.intersect(units_below(c as int))),
                self.inverted == old(self).inverted,
            decreases 0x10000 - c,
        {
            let u = c as u16;
            if other.set.contains(&u) {
                self.set.insert(u);
            }
            assert(self.set@ =~= old(self).set@.union(other.set@.intersect(units_below(c + 1))));
            c = c + 1;
        }
        assert(other.set@.intersect(units_below(0x10000)) =~= other.set@);
    }

    /// `intersectWithCharacterSet:`: keeps only the units that `other` lists.
    pub fn intersect_with(&mut self, other: &CharacterSetHostObject)
        ensures
            final(self).set@ == old(self).set@.intersect(other.set@),
            final(self).inverted == old(self).inverted,
    {
        let mut c: u32 = 0;
        while c < 0x10000
            invariant
                c <= 0x10000,
                self.set@ == old(self).set@.difference(units_below(c as int).difference(other.set@)),
                self.inverted == old(self).inverted,
            decreases 0x10000 - c,
        {
            let u = c as u16;
            if !other.set.contains(&u) {
                self.set.remove(&u);
            }
            assert(self.set@ =~= old(self).set@.difference(units_below(c + 1).difference(other.set@)));
            c = c + 1;
        }
        assert(self.set@ =~= old(self).set@.intersect(other.set@));
    }

    /// `invert`.
    pub fn invert(&mut self)
        ensures
            final(self).set@ == old(self).set@,
            final(self).inverted == !old(self).inverted,
    {
        self.inverted = !self.inverted;
    }
}

} // verus!
