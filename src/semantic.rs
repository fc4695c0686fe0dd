use vstd::prelude::*;
use semver::Version as SemanticVersion;
use vstd::string::StringSliceAdditionalSpecFns;
use vstd::utf8::encode_utf8;
use crate::errors::VersionError;
use crate::format::decimal;
use crate::version::Version;
use crate::version_tag::VersionTag;

verus! {

#[verifier::external_type_specification]
#[verifier::external_body]
pub struct ExSemVersion(SemanticVersion);

#[verifier::external_type_specification]
#[verifier::external_body]
pub struct ExPrerelease(semver::Prerelease);

#[verifier::external_type_specification]
#[verifier::external_body]
pub struct ExBuildMetadata(semver::BuildMetadata);

#[verifier::external_type_specification]
#[verifier::external_body]
pub struct ExSemVerError(semver::Error);

/// `pre.` and then a decimal numeral.
pub open spec fn numbered_prerelease(s: Seq<char>) -> bool {
    exists|n: nat| s == seq!['p', 'r', 'e', '.'] + decimal(n)
}

/// A byte that semver allows inside an identifier.
pub open spec fn is_identifier_byte(b: u8) -> bool {
    (0x30 <= b <= 0x39) || (0x41 <= b <= 0x5a) || (0x61 <= b <= 0x7a) || b == 0x2d
}

/// Build metadata as semver reads it: empty, or non-empty identifiers joined by `.`.
pub open spec fn valid_build(s: Seq<u8>) -> bool {
    s.len() == 0 || {
        &&& forall|i: int| 0 <= i < s.len() ==> is_identifier_byte(#[trigger] s[i]) || s[i] == 0x2e
        &&& s[0] != 0x2e
        &&& s[s.len() - 1] != 0x2e
        &&& forall|i: int| 0 <= i < s.len() - 1 ==> !(#[trigger] s[i] == 0x2e && s[i + 1] == 0x2e)
    }
}

/// Relies on semver::Prerelease::new: dot-separated identifiers of ASCII
/// letters, digits and `-`, where an all-digit identifier has no leading zero,
/// parse; so `pre.` and a decimal numeral does.
#[verifier::external_body]
fn prerelease(text: &str) -> (r: Result<semver::Prerelease, semver::Error>)
    ensures
        numbered_prerelease(text@) ==> r is Ok,
{
    semver::Prerelease::new(text)
}

/// Relies on semver::Prerelease::EMPTY, the absent pre-release.
#[verifier::external_body]
fn no_prerelease() -> semver::Prerelease {
    semver::Prerelease::EMPTY
}

/// Relies on semver::BuildMetadata::new, which accepts exactly the texts of `valid_build`.
#[verifier::external_body]
fn build_metadata(text: &str) -> (r: Result<semver::BuildMetadata, semver::Error>)
    ensures
        r is Ok <==> valid_build(text.spec_bytes()),
{
    semver::BuildMetadata::new(text)
}

/// Relies on semver::BuildMetadata::EMPTY, the absent build metadata.
#[verifier::external_body]
fn no_build() -> semver::BuildMetadata {
    semver::BuildMetadata::EMPTY
}

/// Relies on the public fields of semver::Version: builds the value from them.
#[verifier::external_body]
fn semver_version(major: u64, minor: u64, patch: u64, pre: semver::Prerelease, build: semver::BuildMetadata) -> SemanticVersion {
    SemanticVersion { major, minor, patch, pre, build }
}

/// The pre-release text that a patch number becomes: none for patch 0,
/// otherwise `pre.` and the number.
pub open spec fn prerelease_text(patch: u16) -> Option<Seq<char>> {
    if patch == 0 {
        None
    } else {
        Some(seq!['p', 'r', 'e', '.'] + decimal(patch as nat))
    }
}

impl Version {
    /// The pre-release text of the semantic version that this version projects to.
    pub fn semver_prerelease(&self) -> (r: Option<String>)
        ensures
            match prerelease_text(self.patch) {
                Some(t) => r matches Some(s) && s@ == t,
                None => r is None,
            },
    {
        if self.patch == 0 {
            return None;
        }
        let mut out = String::new();
        out.append("pre.");
        crate::format::push_decimal(&mut out, self.patch as u32);
        proof {
            reveal_strlit("pre.");
        }
        Some(out)
    }

    /// Project to a semantic version: year, major and minor become major,
    /// minor and patch, and a non-zero patch becomes the pre-release `pre.N`.
    pub fn to_semver(&self) -> SemanticVersion {
        semver_version(self.year as u64, self.major as u64, self.minor as u64, prerelease_of(self), no_build())
    }
}

/// The pre-release of the semantic version that `v` projects to.
fn prerelease_of(v: &Version) -> semver::Prerelease {
    match v.semver_prerelease() {
        None => no_prerelease(),
        Some(text) => {
            proof {
                assert(text@ == seq!['p', 'r', 'e', '.'] + decimal(v.patch as nat));
            }
            prerelease(text.as_str()).unwrap()
        },
    }
}

impl VersionTag {
    /// Project to a semantic version as [`Version::to_semver`] does, with the
    /// tag as build metadata. A tag that semver does not accept as build
    /// metadata is an `InvalidPart` named `tag` spanning the tag's bytes.
    pub fn to_semver(&self) -> (r: Result<SemanticVersion, VersionError>)
        ensures
            r is Ok <==> valid_build(encode_utf8(self.tag@)),
            r matches Err(e) ==> e matches VersionError::InvalidPart { part, start, end }
                && part@ == "tag"@ && start == 0 && end == encode_utf8(self.tag@).len(),
    {
        let tag = self.tag.as_str();
        match build_metadata(tag) {
            Ok(build) => {
                let number = &self.number;
                Ok(semver_version(number.year as u64, number.major as u64, number.minor as u64, prerelease_of(number), build))
            },
            Err(_) => Err(VersionError::InvalidPart { part: "tag".to_string(), start: 0, end: tag.as_bytes().len() }),
        }
    }
}

} // verus!
