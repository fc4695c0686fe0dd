use vstd::prelude::*;
use crate::version::{
    decoded, encoded, lemma_decode_encode, lemma_encode_decode, lemma_encode_extremes,
    lemma_encode_order, max_version, min_version, version_le, version_lt, Version,
};

verus! {

/// How a constraint relates a version to its version prefix.
#[derive(Clone, Copy, Debug, PartialEq, Eq, Structural, Hash)]
pub enum VersionComparator {
    /// `=YEAR[.MAJOR[.MINOR[.PATCH]]]`: every version the prefix names.
    Exact,
    /// `>PREFIX`: every version above all that the prefix names.
    Greater,
    /// `>=PREFIX`: every version from the first that the prefix names.
    GreaterEqual,
    /// `<PREFIX`: every version below all that the prefix names.
    Less,
    /// `<=PREFIX`: every version up to the last that the prefix names.
    LessEqual,
    /// `~PREFIX`, patch updates only: from the first version the prefix names,
    /// keeping the year, major and minor that it gives.
    Tilde,
    /// `^PREFIX`, compatible updates: from the first version the prefix names,
    /// keeping the year and major that it gives.
    Caret,
    /// `*`, `YEAR.*`, `YEAR.MAJOR.*`, `YEAR.MAJOR.MINOR.*`: every version the prefix names.
    Wildcard,
}

/// A comparator and a version prefix. A field counts only when every field
/// before it is given: `1.*.3` is read as `1.*`.
#[derive(Clone, Copy, Debug, PartialEq, Eq, Structural, Hash)]
pub struct VersionConstraint {
    pub comparator: VersionComparator,
    pub year: Option<u32>,
    pub major: Option<u8>,
    pub minor: Option<u8>,
    pub patch: Option<u16>,
}

/// Several constraints that must all hold: `>1.0; <2.0`.
#[derive(Clone, Debug, PartialEq, Eq, Hash)]
pub struct VersionRequire {
    pub constraints: Vec<VersionConstraint>,
}

impl Default for VersionComparator {
    /// `Wildcard`.
    fn default() -> (r: VersionComparator)
        ensures
            r == VersionComparator::Wildcard,
    {
        VersionComparator::Wildcard
    }
}

impl Default for VersionConstraint {
    /// `*`: a wildcard with no version field.
    fn default() -> (r: VersionConstraint)
        ensures
            r == (VersionConstraint { comparator: VersionComparator::Wildcard, year: None, major: None, minor: None, patch: None }),
    {
        VersionConstraint { comparator: VersionComparator::Wildcard, year: None, major: None, minor: None, patch: None }
    }
}

impl Default for VersionRequire {
    /// No constraint at all.
    fn default() -> (r: VersionRequire)
        ensures
            r.constraints@ == Seq::<VersionConstraint>::empty(),
    {
        VersionRequire { constraints: Vec::new() }
    }
}

impl VersionConstraint {
    /// The fields form a prefix: none is given after an absent one.
    pub open spec fn wf(&self) -> bool {
        &&& self.major is Some ==> self.year is Some
        &&& self.minor is Some ==> self.major is Some
        &&& self.patch is Some ==> self.minor is Some
    }
}

/// The first version that a prefix names: absent fields at their minimum.
pub open spec fn exact_lower(year: Option<u32>, major: Option<u8>, minor: Option<u8>, patch: Option<u16>) -> Version {
    match year {
        None => Version { year: 0, major: 0, minor: 0, patch: 0 },
        Some(y) => match major {
            None => Version { year: y, major: 0, minor: 0, patch: 0 },
            Some(a) => match minor {
                None => Version { year: y, major: a, minor: 0, patch: 0 },
                Some(i) => match patch {
                    None => Version { year: y, major: a, minor: i, patch: 0 },
                    Some(p) => Version { year: y, major: a, minor: i, patch: p },
                },
            },
        },
    }
}

/// The last version that a prefix names: absent fields at their maximum.
pub open spec fn exact_upper(year: Option<u32>, major: Option<u8>, minor: Option<u8>, patch: Option<u16>) -> Version {
    match year {
        None => Version { year: 0xffff_ffff, major: 0xff, minor: 0xff, patch: 0xffff },
        Some(y) => match major {
            None => Version { year: y, major: 0xff, minor: 0xff, patch: 0xffff },
            Some(a) => match minor {
                None => Version { year: y, major: a, minor: 0xff, patch: 0xffff },
                Some(i) => match patch {
                    None => Version { year: y, major: a, minor: i, patch: 0xffff },
                    Some(p) => Version { year: y, major: a, minor: i, patch: p },
                },
            },
        },
    }
}

/// The version right after `v`, by one step of its code.
pub open spec fn successor(v: Version) -> Version {
    decoded((encoded(v) + 1) as u64)
}

/// The version right before `v`, by one step of its code.
pub open spec fn predecessor(v: Version) -> Version {
    decoded((encoded(v) - 1) as u64)
}

/// The inclusive range `(low, high)` of versions that comparator `c` admits
/// for the given prefix, or `None` when it admits none.
pub open spec fn comparator_range(c: VersionComparator, year: Option<u32>, major: Option<u8>, minor: Option<u8>, patch: Option<u16>) -> Option<(Version, Version)> {
    let lo = exact_lower(year, major, minor, patch);
    let hi = exact_upper(year, major, minor, patch);
    match c {
        VersionComparator::Exact | VersionComparator::Wildcard => Some((lo, hi)),
        VersionComparator::Greater => if hi == max_version() {
            None
        } else {
            Some((successor(hi), max_version()))
        },
        VersionComparator::GreaterEqual => Some((lo, max_version())),
        VersionComparator::Less => if lo == min_version() {
            None
        } else {
            Some((min_version(), predecessor(lo)))
        },
        VersionComparator::LessEqual => Some((min_version(), hi)),
        VersionComparator::Tilde => Some((lo, exact_upper(year, major, minor, None))),
        VersionComparator::Caret => Some((lo, exact_upper(year, major, None, None))),
    }
}

pub open spec fn constraint_range(c: VersionConstraint) -> Option<(Version, Version)> {
    comparator_range(c.comparator, c.year, c.major, c.minor, c.patch)
}

/// `v` lies in the inclusive range from `lo` to `hi`.
pub open spec fn in_range(v: Version, lo: Version, hi: Version) -> bool {
    version_le(lo, v) && version_le(v, hi)
}

/// Constraint `c` admits version `v`.
pub open spec fn admits(c: VersionConstraint, v: Version) -> bool {
    match constraint_range(c) {
        Some((lo, hi)) => in_range(v, lo, hi),
        None => false,
    }
}

/// Every constraint of `cs` admits `v`.
pub open spec fn admits_all(cs: Seq<VersionConstraint>, v: Version) -> bool {
    forall|i: int| 0 <= i < cs.len() ==> admits(#[trigger] cs[i], v)
}

/// `v` agrees with each field that the prefix gives.
pub open spec fn prefix_names(year: Option<u32>, major: Option<u8>, minor: Option<u8>, patch: Option<u16>, v: Version) -> bool {
    match year {
        None => true,
        Some(y) => v.year == y && match major {
            None => true,
            Some(a) => v.major == a && match minor {
                None => true,
                Some(i) => v.minor == i && match patch {
                    None => true,
                    Some(p) => v.patch == p,
                },
            },
        },
    }
}

/// Ranges in version order are ranges of codes.
pub proof fn lemma_in_range_codes(v: Version, lo: Version, hi: Version)
    ensures
        in_range(v, lo, hi) <==> encoded(lo) <= encoded(v) <= encoded(hi),
{
    lemma_encode_order(lo, v);
    lemma_encode_order(v, hi);
}

/// The exact range of a prefix holds the versions that agree with it, and
/// each comparator admits the versions that its symbol says.
pub proof fn lemma_comparator_meaning(c: VersionConstraint, v: Version)
    ensures
        in_range(v, exact_lower(c.year, c.major, c.minor, c.patch), exact_upper(c.year, c.major, c.minor, c.patch))
            <==> prefix_names(c.year, c.major, c.minor, c.patch, v),
        c.comparator == VersionComparator::Exact || c.comparator == VersionComparator::Wildcard
            ==> (admits(c, v) <==> prefix_names(c.year, c.major, c.minor, c.patch, v)),
        c.comparator == VersionComparator::Greater
            ==> (admits(c, v) <==> version_lt(exact_upper(c.year, c.major, c.minor, c.patch), v)),
        c.comparator == VersionComparator::GreaterEqual
            ==> (admits(c, v) <==> version_le(exact_lower(c.year, c.major, c.minor, c.patch), v)),
        c.comparator == VersionComparator::Less
            ==> (admits(c, v) <==> version_lt(v, exact_lower(c.year, c.major, c.minor, c.patch))),
        c.comparator == VersionComparator::LessEqual
            ==> (admits(c, v) <==> version_le(v, exact_upper(c.year, c.major, c.minor, c.patch))),
{
    let lo = exact_lower(c.year, c.major, c.minor, c.patch);
    let hi = exact_upper(c.year, c.major, c.minor, c.patch);
    lemma_encode_extremes(lo);
    lemma_encode_extremes(hi);
    lemma_encode_extremes(v);
    lemma_encode_extremes(min_version());
    lemma_encode_extremes(max_version());
    lemma_encode_order(lo, v);
    lemma_encode_order(v, hi);
    lemma_encode_order(v, max_version());
    lemma_encode_order(min_version(), v);
    if hi != max_version() {
        lemma_encode_decode((encoded(hi) + 1) as u64);
        lemma_encode_order(successor(hi), v);
    }
    if lo != min_version() {
        lemma_encode_decode((encoded(lo) - 1) as u64);
        lemma_encode_order(v, predecessor(lo));
    }
}

/// `r` is the inclusive range `expected`, or `None` when that is `None`.
pub open spec fn range_is(r: Option<core::ops::RangeInclusive<Version>>, expected: Option<(Version, Version)>) -> bool {
    match expected {
        Some((lo, hi)) => r matches Some(rg) && rg@.start == lo && rg@.end == hi && !rg@.exhausted,
        None => r is None,
    }
}

impl VersionComparator {
    /// The first version that the prefix names: absent fields at their minimum.
    pub fn lower(&self, year: Option<u32>, major: Option<u8>, minor: Option<u8>, patch: Option<u16>) -> (r: Version)
        ensures
            r == exact_lower(year, major, minor, patch),
    {
        match year {
            None => Version::new(0, 0, 0, 0),
            Some(y) => match major {
                None => Version::new(y, 0, 0, 0),
                Some(a) => match minor {
                    None => Version::new(y, a, 0, 0),
                    Some(i) => match patch {
                        None => Version::new(y, a, i, 0),
                        Some(p) => Version::new(y, a, i, p),
                    },
                },
            },
        }
    }

    /// The last version that the prefix names: absent fields at their maximum.
    pub fn upper(&self, year: Option<u32>, major: Option<u8>, minor: Option<u8>, patch: Option<u16>) -> (r: Version)
        ensures
            r == exact_upper(year, major, minor, patch),
    {
        match year {
            None => Version::new(0xffff_ffff, 0xff, 0xff, 0xffff),
            Some(y) => match major {
                None => Version::new(y, 0xff, 0xff, 0xffff),
                Some(a) => match minor {
                    None => Version::new(y, a, 0xff, 0xffff),
                    Some(i) => match patch {
                        None => Version::new(y, a, i, 0xffff),
                        Some(p) => Version::new(y, a, i, p),
                    },
                },
            },
        }
    }

    /// The inclusive range of versions that this comparator admits for the
    /// prefix, or `None` when it admits none (`>` the largest version, `<` the smallest).
    pub fn range(&self, year: Option<u32>, major: Option<u8>, minor: Option<u8>, patch: Option<u16>) -> (r: Option<core::ops::RangeInclusive<Version>>)
        ensures
            range_is(r, comparator_range(*self, year, major, minor, patch)),
    {
        match self.bounds(year, major, minor, patch) {
            Some((lo, hi)) => Some(lo..=hi),
            None => None,
        }
    }

    /// The first and the last version of [`VersionComparator::range`].
    pub fn bounds(&self, year: Option<u32>, major: Option<u8>, minor: Option<u8>, patch: Option<u16>) -> (r: Option<(Version, Version)>)
        ensures
            r == comparator_range(*self, year, major, minor, patch),
    {
        let lo = self.lower(year, major, minor, patch);
        let hi = self.upper(year, major, minor, patch);
        match self {
            VersionComparator::Exact | VersionComparator::Wildcard => Some((lo, hi)),
            VersionComparator::Greater => {
                let code = u64::from(hi);
                proof {
                    lemma_encode_extremes(hi);
                }
                if code == 0xffff_ffff_ffff_ffff {
                    None
                } else {
                    Some((Version::from(code + 1), Version::max_value()))
                }
            },
            VersionComparator::GreaterEqual => Some((lo, Version::max_value())),
            VersionComparator::Less => {
                let code = u64::from(lo);
                proof {
                    lemma_encode_extremes(lo);
                }
                if code == 0 {
                    None
                } else {
                    Some((Version::min_value(), Version::from(code - 1)))
                }
            },
            VersionComparator::LessEqual => Some((Version::min_value(), hi)),
            VersionComparator::Tilde => Some((lo, self.upper(year, major, minor, None))),
            VersionComparator::Caret => Some((lo, self.upper(year, major, None, None))),
        }
    }
}

impl VersionConstraint {
    /// The last version that the constraint admits, or `None` when it admits none.
    pub fn upper(&self) -> (r: Option<Version>)
        ensures
            match constraint_range(*self) {
                Some((_, hi)) => r == Some(hi),
                None => r is None,
            },
    {
        match self.comparator.bounds(self.year, self.major, self.minor, self.patch) {
            Some((_, hi)) => Some(hi),
            None => None,
        }
    }

    /// The first version that the constraint admits, or `None` when it admits none.
    pub fn lower(&self) -> (r: Option<Version>)
        ensures
            match constraint_range(*self) {
                Some((lo, _)) => r == Some(lo),
                None => r is None,
            },
    {
        match self.comparator.bounds(self.year, self.major, self.minor, self.patch) {
            Some((lo, _)) => Some(lo),
            None => None,
        }
    }

    /// The constraint gives no version field at all.
    pub fn unlimited(&self) -> (r: bool)
        ensures
            r == (self.year is None && self.major is None && self.minor is None && self.patch is None),
    {
        self.year.is_none() && self.major.is_none() && self.minor.is_none() && self.patch.is_none()
    }

    /// The constraint admits `v`.
    pub fn matches(&self, v: &Version) -> (r: bool)
        ensures
            r == admits(*self, *v),
    {
        match self.comparator.bounds(self.year, self.major, self.minor, self.patch) {
            Some((lo, hi)) => {
                proof {
                    lemma_in_range_codes(*v, lo, hi);
                }
                u64::from(lo) <= u64::from(*v) && u64::from(*v) <= u64::from(hi)
            },
            None => false,
        }
    }
}

impl VersionRequire {
    /// A requirement made of `constraints`, all of which must hold.
    pub fn new(constraints: Vec<VersionConstraint>) -> (r: VersionRequire)
        ensures
            r.constraints@ == constraints@,
    {
        VersionRequire { constraints }
    }

    /// Every constraint admits `v`.
    pub fn matches(&self, v: &Version) -> (r: bool)
        ensures
            r == admits_all(self.constraints@, *v),
    {
        let mut i: usize = 0;
        while i < self.constraints.len()
            invariant
                0 <= i <= self.constraints@.len(),
                forall|j: int| 0 <= j < i ==> admits(#[trigger] self.constraints@[j], *v),
            decreases self.constraints@.len() - i,
        {
            if !self.constraints[i].matches(v) {
                return false;
            }
            i = i + 1;
        }
        true
    }

    /// The first and the last version that every constraint admits: the
    /// intersection of their ranges, or `None` when it is empty.
    pub fn bounds(&self) -> (r: Option<(Version, Version)>)
        ensures
            match r {
                Some((lo, hi)) => version_le(lo, hi) && forall|v: Version|
                    in_range(v, lo, hi) <==> #[trigger] admits_all(self.constraints@, v),
                None => forall|v: Version| !#[trigger] admits_all(self.constraints@, v),
            },
    {
        let ghost cs = self.constraints@;
        let mut lo: u64 = 0;
        let mut hi: u64 = 0xffff_ffff_ffff_ffff;
        let mut i: usize = 0;
        while i < self.constraints.len()
            invariant
                0 <= i <= cs.len(),
                cs == self.constraints@,
                forall|v: Version| (lo <= encoded(v) <= hi) <==> #[trigger] admits_all(cs.subrange(0, i as int), v),
            decreases cs.len() - i,
        {
            let c = self.constraints[i];
            match c.comparator.bounds(c.year, c.major, c.minor, c.patch) {
                None => {
                    assert forall|v: Version| !#[trigger] admits_all(cs, v) by {
                        assert(!admits(cs[i as int], v));
                    }
                    return None;
                },
                Some((l, h)) => {
                    let lc = u64::from(l);
                    let hc = u64::from(h);
                    let ghost (lo0, hi0) = (lo, hi);
                    if lc > lo {
                        lo = lc;
                    }
                    if hc < hi {
                        hi = hc;
                    }
                    assert forall|v: Version| (lo <= encoded(v) <= hi) <==> #[trigger] admits_all(cs.subrange(0, i + 1), v) by {
                        lemma_in_range_codes(v, l, h);
                        assert(admits_all(cs.subrange(0, i as int), v) <==> (lo0 <= encoded(v) <= hi0));
                        if admits_all(cs.subrange(0, i + 1), v) {
                            assert forall|j: int| 0 <= j < i implies admits(#[trigger] cs.subrange(0, i as int)[j], v) by {
                                assert(cs.subrange(0, i as int)[j] == cs.subrange(0, i + 1)[j]);
                            }
                            assert(cs.subrange(0, i + 1)[i as int] == cs[i as int]);
                        }
                        if admits_all(cs.subrange(0, i as int), v) && admits(cs[i as int], v) {
                            assert forall|j: int| 0 <= j < i + 1 implies admits(#[trigger] cs.subrange(0, i + 1)[j], v) by {
                                if j < i {
                                    assert(cs.subrange(0, i as int)[j] == cs.subrange(0, i + 1)[j]);
                                }
                            }
                        }
                    }
                },
            }
            i = i + 1;
        }
        assert(cs.subrange(0, cs.len() as int) =~= cs);
        if lo > hi {
            return None;
        }
        proof {
            lemma_encode_decode(lo);
            lemma_encode_decode(hi);
            lemma_encode_order(decoded(lo), decoded(hi));
            assert forall|v: Version| in_range(v, decoded(lo), decoded(hi)) <==> #[trigger] admits_all(cs, v) by {
                lemma_in_range_codes(v, decoded(lo), decoded(hi));
            }
        }
        Some((Version::from(lo), Version::from(hi)))
    }

    /// The versions that every constraint admits, as an inclusive range, or
    /// `None` when no version meets them all.
    pub fn range(&self) -> (r: Option<core::ops::RangeInclusive<Version>>)
        ensures
            match r {
                Some(rg) => !rg@.exhausted && version_le(rg@.start, rg@.end) && forall|v: Version|
                    in_range(v, rg@.start, rg@.end) <==> #[trigger] admits_all(self.constraints@, v),
                None => forall|v: Version| !#[trigger] admits_all(self.constraints@, v),
            },
    {
        match self.bounds() {
            Some((lo, hi)) => Some(lo..=hi),
            None => None,
        }
    }
}

} // verus!
