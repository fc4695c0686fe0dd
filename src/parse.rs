use vstd::prelude::*;
use vstd::string::StringSliceAdditionalSpecFns;
use vstd::utf8::*;
use crate::errors::VersionError;
use crate::text::{field_value, find_from, find_byte, parse_field, lemma_boundary_after_ascii, lemma_find_from_bounds};
use crate::version::Version;

verus! {

/// Why a scan stopped, with byte offsets into the whole input.
pub enum Fault {
    /// The separator ending the current field is absent; `part` could not be started.
    Missing { part: Seq<char>, offset: int },
    /// Field `part` at `start..end` is not a number that fits it.
    Invalid { part: Seq<char>, start: int, end: int },
    /// The bytes `rest` are left over at `offset`.
    Extra { rest: Seq<u8>, offset: int },
}

/// The outcome of scanning a prefix of some bytes.
pub enum Scan<T> {
    /// `value` was read; the scan ended before index `next` of the bytes,
    /// which is `offset` in the whole input.
    Done { value: T, next: int, offset: int },
    Failed { fault: Fault },
}

/// A field ended by `.`, read from the start of `b`, which begins at `base` in the input.
pub open spec fn scan_dotted(b: Seq<u8>, base: int, max: nat, name: Seq<char>, next_name: Seq<char>) -> Scan<nat> {
    let p = find_from(b, 0, 0x2e);
    if p >= b.len() {
        Scan::Failed { fault: Fault::Missing { part: next_name, offset: base } }
    } else {
        match field_value(b.subrange(0, p), max) {
            Some(n) => Scan::Done { value: n, next: p + 1, offset: base + p + 1 },
            None => Scan::Failed { fault: Fault::Invalid { part: name, start: base, end: base + p } },
        }
    }
}

/// The patch field, ended by `-` (which it consumes) or by the end of `b`.
/// Either way the offset steps past the end of the field, as if past a separator.
pub open spec fn scan_patch(b: Seq<u8>, base: int) -> Scan<nat> {
    let p = find_from(b, 0, 0x2d);
    match field_value(b.subrange(0, p), 0xffff) {
        Some(n) => if p < b.len() {
            Scan::Done { value: n, next: p + 1, offset: base + p + 1 }
        } else {
            Scan::Done { value: n, next: p, offset: base + p + 1 }
        },
        None => Scan::Failed { fault: Fault::Invalid { part: "patch"@, start: base, end: base + p } },
    }
}

pub open spec fn rest_of(b: Seq<u8>, next: int) -> Seq<u8> {
    b.subrange(next, b.len() as int)
}

/// `year.major.minor.patch`, read from the start of `b`, which begins at `base` in the input.
pub open spec fn scan_version(b: Seq<u8>, base: int) -> Scan<Version> {
    match scan_dotted(b, base, 0xffff_ffff, "year"@, "major"@) {
        Scan::Failed { fault } => Scan::Failed { fault },
        Scan::Done { value: y, next: n1, offset: o1 } => {
            let b1 = rest_of(b, n1);
            match scan_dotted(b1, o1, 0xff, "major"@, "minor"@) {
                Scan::Failed { fault } => Scan::Failed { fault },
                Scan::Done { value: a, next: n2, offset: o2 } => {
                    let b2 = rest_of(b1, n2);
                    match scan_dotted(b2, o2, 0xff, "minor"@, "patch"@) {
                        Scan::Failed { fault } => Scan::Failed { fault },
                        Scan::Done { value: i, next: n3, offset: o3 } => {
                            match scan_patch(rest_of(b2, n3), o3) {
                                Scan::Failed { fault } => Scan::Failed { fault },
                                Scan::Done { value: p, next: n4, offset: o4 } => Scan::Done {
                                    value: Version { year: y as u32, major: a as u8, minor: i as u8, patch: p as u16 },
                                    next: n1 + n2 + n3 + n4,
                                    offset: o4,
                                },
                            }
                        },
                    }
                },
            }
        },
    }
}

/// A whole input that is one version and nothing more.
pub open spec fn parse_version(b: Seq<u8>) -> Result<Version, Fault> {
    match scan_version(b, 0) {
        Scan::Done { value, next, offset } => if next < b.len() {
            Err(Fault::Extra { rest: rest_of(b, next), offset })
        } else {
            Ok(value)
        },
        Scan::Failed { fault } => Err(fault),
    }
}

/// `e` reports `f`.
pub open spec fn reports(e: VersionError, f: Fault) -> bool {
    match f {
        Fault::Missing { part, offset } => e matches VersionError::MissingPart { part: p, offset: o }
            && p@ == part && o == offset,
        Fault::Invalid { part, start, end } => e matches VersionError::InvalidPart { part: p, start: s, end: t }
            && p@ == part && s == start && t == end,
        Fault::Extra { rest, offset } => e matches VersionError::ExtraPart { extra, offset: o }
            && encode_utf8(extra@) == rest && o == offset,
    }
}

/// `r` is what a scan `s` of `input` found: the value, what is left of the
/// input, and the offset, or the error that reports the fault.
pub open spec fn scanned<'a, T>(r: Result<(T, &'a str, usize), VersionError>, input: Seq<u8>, s: Scan<T>) -> bool {
    match s {
        Scan::Done { value, next, offset } => r matches Ok((v, rest, o)) && v == value
            && 0 <= next <= input.len() && rest.spec_bytes() == rest_of(input, next) && o == offset,
        Scan::Failed { fault } => r matches Err(e) && reports(e, fault),
    }
}

pub open spec fn scanned_field<'a>(r: Result<(u32, &'a str, usize), VersionError>, input: Seq<u8>, s: Scan<nat>) -> bool {
    match s {
        Scan::Done { value, next, offset } => r matches Ok((v, rest, o)) && v as nat == value
            && 0 <= next <= input.len() && rest.spec_bytes() == rest_of(input, next) && o == offset,
        Scan::Failed { fault } => r matches Err(e) && reports(e, fault),
    }
}

pub open spec fn widen_u8<'a>(r: Result<(u8, &'a str, usize), VersionError>) -> Result<(u32, &'a str, usize), VersionError> {
    match r {
        Ok((n, rest, o)) => Ok((n as u32, rest, o)),
        Err(e) => Err(e),
    }
}

pub open spec fn widen_u16<'a>(r: Result<(u16, &'a str, usize), VersionError>) -> Result<(u32, &'a str, usize), VersionError> {
    match r {
        Ok((n, rest, o)) => Ok((n as u32, rest, o)),
        Err(e) => Err(e),
    }
}

/// Read a field ended by `.` from the start of `input`, which begins at `offset`.
fn advance_dotted<'a>(input: &'a str, offset: usize, max: u32, name: &str, next_name: &str) -> (r: Result<(u32, &'a str, usize), VersionError>)
    requires
        offset + input.spec_bytes().len() <= usize::MAX,
    ensures
        scanned_field(r, input.spec_bytes(), scan_dotted(input.spec_bytes(), offset as int, max as nat, name@, next_name@)),
{
    let bytes = input.as_bytes();
    let ghost b = input.spec_bytes();
    proof {
        lemma_find_from_bounds(b, 0, 0x2e);
        encode_utf8_valid_utf8(input@);
    }
    let position = find_byte(bytes, 0, 0x2e);
    if position == bytes.len() {
        return Err(VersionError::MissingPart { part: next_name.to_string(), offset });
    }
    match parse_field(bytes, 0, position, max) {
        Some(n) => {
            proof {
                lemma_boundary_after_ascii(b, position as int);
            }
            let (_, rest) = input.split_at(position + 1);
            Ok((n, rest, offset + position + 1))
        },
        None => Err(VersionError::InvalidPart { part: name.to_string(), start: offset, end: offset + position }),
    }
}

/// Read the patch number as `Version::parse_advance_patch` does, returning
/// the index where it ends (the `-` or the end of `input`) in place of the offset.
fn patch_at<'a>(input: &'a str, offset: usize) -> (r: Result<(u16, &'a str, usize), VersionError>)
    requires
        offset + input.spec_bytes().len() <= usize::MAX,
    ensures
        match scan_patch(input.spec_bytes(), offset as int) {
            Scan::Done { value, next, offset: o } => r matches Ok((v, rest, end)) && v as nat == value
                && 0 <= next <= input.spec_bytes().len() && end <= input.spec_bytes().len()
                && rest.spec_bytes() == rest_of(input.spec_bytes(), next) && o == offset + end + 1
                && (next == end + 1 || (next == end && end == input.spec_bytes().len())),
            Scan::Failed { fault } => r matches Err(e) && reports(e, fault),
        },
{
    let bytes = input.as_bytes();
    let ghost b = input.spec_bytes();
    proof {
        lemma_find_from_bounds(b, 0, 0x2d);
        encode_utf8_valid_utf8(input@);
        is_char_boundary_start_end_of_seq(b);
    }
    let position = find_byte(bytes, 0, 0x2d);
    match parse_field(bytes, 0, position, 0xffff) {
        Some(n) => {
            if position < bytes.len() {
                proof {
                    lemma_boundary_after_ascii(b, position as int);
                }
                let (_, rest) = input.split_at(position + 1);
                Ok((n as u16, rest, position))
            } else {
                let (_, rest) = input.split_at(position);
                Ok((n as u16, rest, position))
            }
        },
        None => Err(VersionError::InvalidPart { part: "patch".to_string(), start: offset, end: offset + position }),
    }
}

/// Read a version as `Version::parse_advance_version` does, returning the
/// index in `s` where the patch ends (the `-` or the end of `s`) in place of the offset.
pub(crate) fn version_at<'a>(s: &'a str, start: usize) -> (r: Result<(Version, &'a str, usize), VersionError>)
    requires
        start + s.spec_bytes().len() <= usize::MAX,
    ensures
        match scan_version(s.spec_bytes(), start as int) {
            Scan::Done { value, next, offset } => r matches Ok((v, rest, end)) && v == value
                && 0 <= next <= s.spec_bytes().len() && end <= s.spec_bytes().len()
                && rest.spec_bytes() == rest_of(s.spec_bytes(), next) && offset == start + end + 1
                && (next == end + 1 || (next == end && end == s.spec_bytes().len())),
            Scan::Failed { fault } => r matches Err(e) && reports(e, fault),
        },
{
    let ghost b = s.spec_bytes();
    let (year, rest, offset) = match Version::parse_advance_year(s, start) {
        Ok(t) => t,
        Err(e) => return Err(e),
    };
    let ghost b1 = rest.spec_bytes();
    proof {
        lemma_find_from_bounds(b, 0, 0x2e);
    }
    let (major, rest, offset) = match Version::parse_advance_major(rest, offset) {
        Ok(t) => t,
        Err(e) => return Err(e),
    };
    let ghost b2 = rest.spec_bytes();
    proof {
        lemma_find_from_bounds(b1, 0, 0x2e);
        assert(b2 =~= rest_of(b, b.len() - b2.len()));
    }
    let (minor, rest, offset) = match Version::parse_advance_minor(rest, offset) {
        Ok(t) => t,
        Err(e) => return Err(e),
    };
    let ghost b3 = rest.spec_bytes();
    proof {
        lemma_find_from_bounds(b2, 0, 0x2e);
        assert(b3 =~= rest_of(b, b.len() - b3.len()));
    }
    let (patch, rest, end) = match patch_at(rest, offset) {
        Ok(t) => t,
        Err(e) => return Err(e),
    };
    proof {
        lemma_find_from_bounds(b3, 0, 0x2d);
        assert(rest.spec_bytes() =~= rest_of(b, b.len() - rest.spec_bytes().len()));
    }
    Ok((Version { year, major, minor, patch }, rest, (offset - start) + end))
}

impl Version {
    /// Read the year and the `.` after it from the start of `input`, which
    /// begins at byte `offset` of the whole text.
    pub fn parse_advance_year<'a>(input: &'a str, offset: usize) -> (r: Result<(u32, &'a str, usize), VersionError>)
        requires
            offset + input.spec_bytes().len() <= usize::MAX,
        ensures
            scanned_field(r, input.spec_bytes(), scan_dotted(input.spec_bytes(), offset as int, 0xffff_ffff, "year"@, "major"@)),
    {
        advance_dotted(input, offset, 0xffff_ffff, "year", "major")
    }

    /// Read the major number and the `.` after it.
    pub fn parse_advance_major<'a>(input: &'a str, offset: usize) -> (r: Result<(u8, &'a str, usize), VersionError>)
        requires
            offset + input.spec_bytes().len() <= usize::MAX,
        ensures
            scanned_field(widen_u8(r), input.spec_bytes(), scan_dotted(input.spec_bytes(), offset as int, 0xff, "major"@, "minor"@)),
    {
        match advance_dotted(input, offset, 0xff, "major", "minor") {
            Ok((n, rest, o)) => Ok((n as u8, rest, o)),
            Err(e) => Err(e),
        }
    }

    /// Read the minor number and the `.` after it.
    pub fn parse_advance_minor<'a>(input: &'a str, offset: usize) -> (r: Result<(u8, &'a str, usize), VersionError>)
        requires
            offset + input.spec_bytes().len() <= usize::MAX,
        ensures
            scanned_field(widen_u8(r), input.spec_bytes(), scan_dotted(input.spec_bytes(), offset as int, 0xff, "minor"@, "patch"@)),
    {
        match advance_dotted(input, offset, 0xff, "minor", "patch") {
            Ok((n, rest, o)) => Ok((n as u8, rest, o)),
            Err(e) => Err(e),
        }
    }

    /// Read the patch number, which ends at a `-` (consumed) or at the end of
    /// `input`; the offset returned is one past that end in both cases.
    pub fn parse_advance_patch<'a>(input: &'a str, offset: usize) -> (r: Result<(u16, &'a str, usize), VersionError>)
        requires
            offset + input.spec_bytes().len() < usize::MAX,
        ensures
            scanned_field(widen_u16(r), input.spec_bytes(), scan_patch(input.spec_bytes(), offset as int)),
    {
        match patch_at(input, offset) {
            Ok((n, rest, position)) => Ok((n, rest, offset + position + 1)),
            Err(e) => Err(e),
        }
    }

    /// Read `year.major.minor.patch` from the start of `s`, which begins at
    /// byte `start` of the whole text; return the version, the text after it
    /// (after a `-` that ends the patch), and the offset of that text.
    pub fn parse_advance_version<'a>(s: &'a str, start: usize) -> (r: Result<(Version, &'a str, usize), VersionError>)
        requires
            start + s.spec_bytes().len() < usize::MAX,
        ensures
            scanned(r, s.spec_bytes(), scan_version(s.spec_bytes(), start as int)),
    {
        match version_at(s, start) {
            Ok((v, rest, end)) => Ok((v, rest, start + end + 1)),
            Err(e) => Err(e),
        }
    }

    /// Read a whole text as a version: `year.major.minor.patch` and nothing
    /// after it but a `-` that ends the patch.
    pub fn parse(s: &str) -> (r: Result<Version, VersionError>)
        ensures
            match parse_version(s.spec_bytes()) {
                Ok(v) => r == Ok::<Version, VersionError>(v),
                Err(f) => r matches Err(e) && reports(e, f),
            },
    {
        // A slice's length is a `usize`, so every offset below fits in one.
        let bytes = s.as_bytes();
        assert(bytes@.len() == bytes.len());
        let (version, rest, end) = match version_at(s, 0) {
            Ok(t) => t,
            Err(e) => return Err(e),
        };
        if rest.len() > 0 {
            let extra = rest.to_string();
            return Err(VersionError::ExtraPart { extra, offset: end + 1 });
        }
        Ok(version)
    }
}

impl core::str::FromStr for Version {
    type Err = VersionError;

    /// Same as [`Version::parse`].
    fn from_str(s: &str) -> (r: Result<Version, VersionError>)
        ensures
            match parse_version(s.spec_bytes()) {
                Ok(v) => r == Ok::<Version, VersionError>(v),
                Err(f) => r matches Err(e) && reports(e, f),
            },
    {
        Version::parse(s)
    }
}

} // verus!
