//! Calendar-led version numbers (`year.major.minor.patch`): parsing with
//! byte-exact error positions, a packed 64-bit codec, canonical text, and
//! version-range constraints.

pub mod errors;
pub mod format;
pub mod parse;
pub mod req_parse;
pub mod semantic;
pub mod text;
pub mod version;
pub mod version_req;
pub mod version_tag;

pub use crate::errors::VersionError;
pub use crate::version::Version;
pub use crate::version_req::{VersionComparator, VersionConstraint, VersionRequire};
pub use crate::version_tag::VersionTag;

/// The semantic-versioning type that registries built on semver expect.
pub use semver::Version as SemVer;
