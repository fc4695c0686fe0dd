use vstd::prelude::*;

verus! {

/// A calendar-led version number `year.major.minor.patch`.
///
/// The four fields are ordered lexicographically, year first. The whole value
/// packs into 64 bits: 32 for the year, 8 each for major and minor, 16 for the patch.
#[derive(Clone, Copy, Debug, PartialEq, Eq, Structural, Hash, Ord)]
pub struct Version {
    /// Breaking-change generation.
    pub year: u32,
    /// Breaking-change counter within a year.
    pub major: u8,
    /// Additive, compatible counter.
    pub minor: u8,
    /// Fix-level counter.
    pub patch: u16,
}

/// Lexicographic order on (year, major, minor, patch).
pub open spec fn version_lt(a: Version, b: Version) -> bool {
    a.year < b.year
        || (a.year == b.year && a.major < b.major)
        || (a.year == b.year && a.major == b.major && a.minor < b.minor)
        || (a.year == b.year && a.major == b.major && a.minor == b.minor && a.patch < b.patch)
}

pub open spec fn version_le(a: Version, b: Version) -> bool {
    version_lt(a, b) || a == b
}

/// The packed integer of a version: `year << 32 | major << 24 | minor << 16 | patch`.
pub open spec fn encoded(v: Version) -> u64 {
    pack(v.year as u64, v.major as u64, v.minor as u64, v.patch as u64)
}

pub open spec fn pack(y: u64, a: u64, i: u64, p: u64) -> u64 {
    (y << 32u64) | (a << 24u64) | (i << 16u64) | p
}

/// The version whose fields are shifted and masked out of `n`.
pub open spec fn decoded(n: u64) -> Version {
    Version {
        year: (n >> 32u64) as u32,
        major: ((n >> 24u64) & 0xffu64) as u8,
        minor: ((n >> 16u64) & 0xffu64) as u8,
        patch: (n & 0xffffu64) as u16,
    }
}

pub open spec fn min_version() -> Version {
    Version { year: 0, major: 0, minor: 0, patch: 0 }
}

pub open spec fn max_version() -> Version {
    Version { year: 0xffff_ffff, major: 0xff, minor: 0xff, patch: 0xffff }
}

impl Default for Version {
    /// The smallest version, `0.0.0.0`.
    fn default() -> (r: Version)
        ensures
            r == min_version(),
    {
        Version { year: 0, major: 0, minor: 0, patch: 0 }
    }
}

impl Version {
    /// The smallest version, `0.0.0.0`.
    pub fn min_value() -> (r: Version)
        ensures
            r == min_version(),
    {
        Version { year: 0, major: 0, minor: 0, patch: 0 }
    }

    /// The largest version, every field at its maximum.
    pub fn max_value() -> (r: Version)
        ensures
            r == max_version(),
    {
        Version { year: 0xffff_ffff, major: 0xff, minor: 0xff, patch: 0xffff }
    }

    /// Create a version from its four fields.
    pub fn new(year: u32, major: u8, minor: u8, patch: u16) -> (r: Version)
        ensures
            r == (Version { year, major, minor, patch }),
    {
        Version { year, major, minor, patch }
    }
}

/// The ordering of two versions by `version_lt`.
pub open spec fn version_cmp(a: Version, b: Version) -> core::cmp::Ordering {
    if version_lt(a, b) {
        core::cmp::Ordering::Less
    } else if a == b {
        core::cmp::Ordering::Equal
    } else {
        core::cmp::Ordering::Greater
    }
}

impl PartialOrd for Version {
    /// Compare year, then major, then minor, then patch.
    fn partial_cmp(&self, other: &Version) -> (r: Option<core::cmp::Ordering>) {
        let (a, b) = (self, other);
        if a.year != b.year {
            if a.year < b.year {
                Some(core::cmp::Ordering::Less)
            } else {
                Some(core::cmp::Ordering::Greater)
            }
        } else if a.major != b.major {
            if a.major < b.major {
                Some(core::cmp::Ordering::Less)
            } else {
                Some(core::cmp::Ordering::Greater)
            }
        } else if a.minor != b.minor {
            if a.minor < b.minor {
                Some(core::cmp::Ordering::Less)
            } else {
                Some(core::cmp::Ordering::Greater)
            }
        } else if a.patch != b.patch {
            if a.patch < b.patch {
                Some(core::cmp::Ordering::Less)
            } else {
                Some(core::cmp::Ordering::Greater)
            }
        } else {
            Some(core::cmp::Ordering::Equal)
        }
    }
}

impl vstd::std_specs::cmp::PartialOrdSpecImpl for Version {
    open spec fn obeys_partial_cmp_spec() -> bool {
        true
    }

    open spec fn partial_cmp_spec(&self, other: &Version) -> Option<core::cmp::Ordering> {
        Some(version_cmp(*self, *other))
    }
}

impl From<Version> for u64 {
    /// Pack a version: `year << 32 | major << 24 | minor << 16 | patch`.
    fn from(v: Version) -> (r: u64) {
        ((v.year as u64) << 32u64) | ((v.major as u64) << 24u64) | ((v.minor as u64) << 16u64)
            | (v.patch as u64)
    }
}

impl vstd::std_specs::convert::FromSpecImpl<Version> for u64 {
    open spec fn obeys_from_spec() -> bool {
        true
    }

    open spec fn from_spec(v: Version) -> u64 {
        encoded(v)
    }
}

impl From<u64> for Version {
    /// Unpack a version: each field is shifted and masked out of `n`.
    fn from(n: u64) -> (r: Version) {
        Version {
            year: (n >> 32u64) as u32,
            major: ((n >> 24u64) & 0xffu64) as u8,
            minor: ((n >> 16u64) & 0xffu64) as u8,
            patch: (n & 0xffffu64) as u16,
        }
    }
}

impl vstd::std_specs::convert::FromSpecImpl<u64> for Version {
    open spec fn obeys_from_spec() -> bool {
        true
    }

    open spec fn from_spec(n: u64) -> Version {
        decoded(n)
    }
}

/// Unpacking a packed value gives back its fields.
proof fn lemma_unpack_pack(y: u64, a: u64, i: u64, p: u64)
    requires
        y < 0x1_0000_0000,
        a < 0x100,
        i < 0x100,
        p < 0x1_0000,
    ensures
        pack(y, a, i, p) >> 32u64 == y,
        (pack(y, a, i, p) >> 24u64) & 0xffu64 == a,
        (pack(y, a, i, p) >> 16u64) & 0xffu64 == i,
        pack(y, a, i, p) & 0xffffu64 == p,
{
    assert((y << 32u64 | a << 24u64 | i << 16u64 | p) >> 32u64 == y) by (bit_vector)
        requires
            y < 0x1_0000_0000 && a < 0x100 && i < 0x100 && p < 0x1_0000,
    ;
    assert(((y << 32u64 | a << 24u64 | i << 16u64 | p) >> 24u64) & 0xffu64 == a) by (bit_vector)
        requires
            y < 0x1_0000_0000 && a < 0x100 && i < 0x100 && p < 0x1_0000,
    ;
    assert(((y << 32u64 | a << 24u64 | i << 16u64 | p) >> 16u64) & 0xffu64 == i) by (bit_vector)
        requires
            y < 0x1_0000_0000 && a < 0x100 && i < 0x100 && p < 0x1_0000,
    ;
    assert((y << 32u64 | a << 24u64 | i << 16u64 | p) & 0xffffu64 == p) by (bit_vector)
        requires
            y < 0x1_0000_0000 && a < 0x100 && i < 0x100 && p < 0x1_0000,
    ;
}

/// Packing is strictly monotone in the lexicographic order of the fields.
proof fn lemma_pack_monotone(ya: u64, aa: u64, ia: u64, pa: u64, yb: u64, ab: u64, ib: u64, pb: u64)
    requires
        ya < 0x1_0000_0000 && aa < 0x100 && ia < 0x100 && pa < 0x1_0000,
        yb < 0x1_0000_0000 && ab < 0x100 && ib < 0x100 && pb < 0x1_0000,
        ya < yb || (ya == yb && aa < ab) || (ya == yb && aa == ab && ia < ib) || (ya == yb && aa
            == ab && ia == ib && pa < pb),
    ensures
        pack(ya, aa, ia, pa) < pack(yb, ab, ib, pb),
{
    assert((ya << 32u64 | aa << 24u64 | ia << 16u64 | pa) < (yb << 32u64 | ab << 24u64 | ib
        << 16u64 | pb)) by (bit_vector)
        requires
            ya < 0x1_0000_0000 && aa < 0x100 && ia < 0x100 && pa < 0x1_0000,
            yb < 0x1_0000_0000 && ab < 0x100 && ib < 0x100 && pb < 0x1_0000,
            ya < yb || (ya == yb && aa < ab) || (ya == yb && aa == ab && ia < ib) || (ya == yb
                && aa == ab && ia == ib && pa < pb),
    ;
}

/// Decoding undoes encoding: the codec loses nothing.
pub proof fn lemma_decode_encode(v: Version)
    ensures
        decoded(encoded(v)) == v,
{
    lemma_unpack_pack(v.year as u64, v.major as u64, v.minor as u64, v.patch as u64);
}

/// Encoding undoes decoding: every 64-bit integer is the code of exactly one version.
pub proof fn lemma_encode_decode(n: u64)
    ensures
        encoded(decoded(n)) == n,
{
    assert(pack(n >> 32u64, (n >> 24u64) & 0xffu64, (n >> 16u64) & 0xffu64, n & 0xffffu64) == n)
        by (bit_vector);
    assert(n >> 32u64 < 0x1_0000_0000u64) by (bit_vector);
    assert((n >> 24u64) & 0xffu64 < 0x100u64) by (bit_vector);
    assert((n >> 16u64) & 0xffu64 < 0x100u64) by (bit_vector);
    assert(n & 0xffffu64 < 0x1_0000u64) by (bit_vector);
}

/// A smaller version has a smaller code, and only equal versions share one.
pub proof fn lemma_encode_order(v1: Version, v2: Version)
    ensures
        version_lt(v1, v2) <==> encoded(v1) < encoded(v2),
        v1 == v2 <==> encoded(v1) == encoded(v2),
{
    if version_lt(v1, v2) {
        lemma_pack_monotone(
            v1.year as u64, v1.major as u64, v1.minor as u64, v1.patch as u64,
            v2.year as u64, v2.major as u64, v2.minor as u64, v2.patch as u64,
        );
    } else if version_lt(v2, v1) {
        lemma_pack_monotone(
            v2.year as u64, v2.major as u64, v2.minor as u64, v2.patch as u64,
            v1.year as u64, v1.major as u64, v1.minor as u64, v1.patch as u64,
        );
    }
}

/// The codec is a bijection that preserves order: decoding undoes encoding,
/// every integer is a code, and encoding is strictly monotone.
pub proof fn lemma_codec_bijection(v1: Version, v2: Version, n: u64)
    ensures
        decoded(encoded(v1)) == v1,
        encoded(decoded(n)) == n,
        version_lt(v1, v2) <==> encoded(v1) < encoded(v2),
{
    lemma_decode_encode(v1);
    lemma_encode_decode(n);
    lemma_encode_order(v1, v2);
}

/// The smallest and the largest versions have the smallest and the largest codes.
pub proof fn lemma_encode_extremes(v: Version)
    ensures
        encoded(v) == 0 <==> v == min_version(),
        encoded(v) == 0xffff_ffff_ffff_ffff <==> v == max_version(),
{
    lemma_decode_encode(v);
    lemma_decode_encode(min_version());
    lemma_decode_encode(max_version());
    assert(pack(0, 0, 0, 0) == 0) by (bit_vector);
    assert(pack(0xffff_ffff, 0xff, 0xff, 0xffff) == 0xffff_ffff_ffff_ffffu64) by (bit_vector);
}

/// Version order is a strict total order, the lexicographic one on the fields.
pub proof fn lemma_total_order(a: Version, b: Version, c: Version)
    ensures
        !version_lt(a, a),
        version_lt(a, b) && version_lt(b, c) ==> version_lt(a, c),
        version_lt(a, b) || a == b || version_lt(b, a),
        !(version_lt(a, b) && version_lt(b, a)),
{
}

} // verus!
