use vstd::prelude::*;
use vstd::std_specs::cmp::{PartialEqSpec, PartialOrdSpec};
use vstd::string::StringSliceAdditionalSpecFns;
use vstd::utf8::*;
use crate::errors::VersionError;
use crate::format::{lemma_scan_version_text, version_text};
use crate::parse::{reports, rest_of, scan_version, version_at, Scan};
use crate::version::{version_cmp, Version};

verus! {

/// A version with a free-form label, such as `nightly` or a build id.
///
/// Only `number` takes part in equality, ordering and hashing; `tag` is metadata.
#[derive(Clone, Debug)]
pub struct VersionTag {
    /// The version number.
    pub number: Version,
    /// The label; it never affects comparison.
    pub tag: String,
}

impl PartialEq for VersionTag {
    fn eq(&self, other: &VersionTag) -> (r: bool) {
        self.number == other.number
    }
}

impl vstd::std_specs::cmp::PartialEqSpecImpl for VersionTag {
    open spec fn obeys_eq_spec() -> bool {
        true
    }

    open spec fn eq_spec(&self, other: &VersionTag) -> bool {
        self.number == other.number
    }
}

impl Eq for VersionTag {}

impl PartialOrd for VersionTag {
    fn partial_cmp(&self, other: &VersionTag) -> (r: Option<core::cmp::Ordering>) {
        self.number.partial_cmp(&other.number)
    }
}

impl vstd::std_specs::cmp::PartialOrdSpecImpl for VersionTag {
    open spec fn obeys_partial_cmp_spec() -> bool {
        true
    }

    open spec fn partial_cmp_spec(&self, other: &VersionTag) -> Option<core::cmp::Ordering> {
        Some(version_cmp(self.number, other.number))
    }
}

impl core::hash::Hash for VersionTag {
    /// Relies on the derived `Hash` of `Version`: feeds the number alone to
    /// the hasher, so the tag never changes a hash. Nothing is claimed of it.
    #[verifier::external_body]
    fn hash<H: core::hash::Hasher>(&self, state: &mut H) {
        self.number.hash(state);
    }
}

/// The text of a tagged version: the version, `-`, then the tag.
pub open spec fn tag_text(t: VersionTag) -> Seq<char> {
    version_text(t.number) + seq!['-'] + t.tag@
}

impl VersionTag {
    /// Tag `number` with `tag`.
    pub fn new(number: Version, tag: String) -> (r: VersionTag)
        ensures
            r.number == number,
            r.tag == tag,
    {
        VersionTag { number, tag }
    }

    /// The text `year.major.minor.patch-tag`.
    pub fn to_string(&self) -> (r: String)
        ensures
            r@ == tag_text(*self),
    {
        let mut out = self.number.to_string();
        out.append("-");
        out.append(self.tag.as_str());
        proof {
            reveal_strlit("-");
        }
        out
    }

    /// Read `year.major.minor.patch`, then, after a `-`, the tag (the rest of
    /// the text). Without a `-` the tag is empty.
    pub fn parse(s: &str) -> (r: Result<VersionTag, VersionError>)
        ensures
            match scan_version(s.spec_bytes(), 0) {
                Scan::Done { value, next, .. } => r matches Ok(t) && t.number == value
                    && encode_utf8(t.tag@) == rest_of(s.spec_bytes(), next),
                Scan::Failed { fault } => r matches Err(e) && reports(e, fault),
            },
    {
        // A slice's length is a `usize`, so every offset below fits in one.
        let bytes = s.as_bytes();
        assert(bytes@.len() == bytes.len());
        match version_at(s, 0) {
            Ok((number, rest, _)) => Ok(VersionTag { number, tag: rest.to_string() }),
            Err(e) => Err(e),
        }
    }
}

impl core::str::FromStr for VersionTag {
    type Err = VersionError;

    /// Same as [`VersionTag::parse`].
    fn from_str(s: &str) -> (r: Result<VersionTag, VersionError>)
        ensures
            match scan_version(s.spec_bytes(), 0) {
                Scan::Done { value, next, .. } => r matches Ok(t) && t.number == value
                    && encode_utf8(t.tag@) == rest_of(s.spec_bytes(), next),
                Scan::Failed { fault } => r matches Err(e) && reports(e, fault),
            },
    {
        VersionTag::parse(s)
    }
}

/// The tag never takes part in comparison: tagged versions with equal numbers
/// are equal and compare as equal, whatever their tags.
pub proof fn lemma_tag_neutral(a: VersionTag, b: VersionTag)
    requires
        a.number == b.number,
    ensures
        a.eq_spec(&b),
        a.partial_cmp_spec(&b) == Some(core::cmp::Ordering::Equal),
{
}

/// UTF-8 encoding distributes over concatenation.
proof fn lemma_encode_concat(a: Seq<char>, b: Seq<char>)
    ensures
        encode_utf8(a + b) == encode_utf8(a) + encode_utf8(b),
    decreases a.len(),
{
    if a.len() == 0 {
        assert(a + b =~= b);
        assert(encode_utf8(a) + encode_utf8(b) =~= encode_utf8(b));
    } else {
        lemma_encode_concat(a.drop_first(), b);
        assert((a + b).drop_first() =~= a.drop_first() + b);
        assert((a + b)[0] == a[0]);
        assert(encode_utf8(a + b) =~= encode_utf8(a) + encode_utf8(b));
    }
}

/// The text of a tagged version scans back to its number, and what is left
/// after the `-` is its tag.
pub proof fn lemma_parse_tag_text(t: VersionTag)
    ensures
        ({
            let b = encode_utf8(tag_text(t));
            let n = encode_utf8(version_text(t.number)).len() + 1int;
            &&& scan_version(b, 0) == (Scan::Done { value: t.number, next: n, offset: n })
            &&& rest_of(b, n) == encode_utf8(t.tag@)
        }),
{
    let vt = version_text(t.number);
    let dash = seq!['-'];
    lemma_encode_concat(vt + dash, t.tag@);
    lemma_encode_concat(vt, dash);
    is_ascii_chars_encode_utf8(dash);
    assert(encode_utf8(dash) =~= seq![0x2du8]);
    let tail = seq![0x2du8] + encode_utf8(t.tag@);
    let b = encode_utf8(tag_text(t));
    assert(b =~= encode_utf8(vt) + tail);
    lemma_scan_version_text(t.number, tail);
    assert(rest_of(b, encode_utf8(vt).len() + 1int) =~= encode_utf8(t.tag@));
}

} // verus!
