use vstd::prelude::*;
use vstd::string::StringSliceAdditionalSpecFns;
use vstd::utf8::*;
use crate::errors::VersionError;
use crate::format::{ascii_bytes, comparator_symbol, constraint_text, decimal, lemma_decimal_digits, prefix_text, require_text};
use crate::parse::{reports, rest_of, scanned, Fault, Scan};
use crate::text::{all_digits, field_value, is_digit, lemma_boundary_after_ascii, parse_field};
use crate::version_req::{VersionComparator, VersionConstraint, VersionRequire};

verus! {

/// The fields of a version prefix; each is given only if the one before it is.
pub type Prefix = (Option<u32>, Option<u8>, Option<u8>, Option<u16>);

/// Index `i` of `b` holds `c`.
pub open spec fn byte_at(b: Seq<u8>, i: int, c: u8) -> bool {
    0 <= i < b.len() && b[i] == c
}

/// The end of the run of digits that starts at `pos`.
pub open spec fn digits_end(b: Seq<u8>, pos: int) -> int
    decreases b.len() - pos,
{
    if pos < 0 || pos >= b.len() || !is_digit(b[pos]) {
        pos
    } else {
        digits_end(b, pos + 1)
    }
}

/// The end of the run of spaces that starts at `pos`.
pub open spec fn spaces_end(b: Seq<u8>, pos: int) -> int
    decreases b.len() - pos,
{
    if pos < 0 || pos >= b.len() || b[pos] != 0x20 {
        pos
    } else {
        spaces_end(b, pos + 1)
    }
}

/// A number at `pos` of `b` (which begins at `base` of the input): the run of
/// digits there, which must be non-empty and at most `max`.
pub open spec fn scan_number(b: Seq<u8>, pos: int, base: int, max: nat, name: Seq<char>) -> Scan<nat> {
    let e = digits_end(b, pos);
    match field_value(b.subrange(pos, e), max) {
        Some(n) => Scan::Done { value: n, next: e, offset: base + e },
        None => Scan::Failed { fault: Fault::Invalid { part: name, start: base + pos, end: base + e } },
    }
}

pub open spec fn prefix_done(value: Prefix, next: int, base: int) -> Scan<Prefix> {
    Scan::Done { value, next, offset: base + next }
}

/// A version prefix at `pos`: `*`, or `YEAR`, `YEAR.MAJOR`, `YEAR.MAJOR.MINOR`,
/// `YEAR.MAJOR.MINOR.PATCH`, where a `*` may stand for the first absent field.
pub open spec fn scan_prefix(b: Seq<u8>, pos: int, base: int) -> Scan<Prefix> {
    if byte_at(b, pos, 0x2a) {
        prefix_done((None, None, None, None), pos + 1, base)
    } else {
        match scan_number(b, pos, base, 0xffff_ffff, "year"@) {
            Scan::Failed { fault } => Scan::Failed { fault },
            Scan::Done { value: y, next: e1, .. } => {
                let y = Some(y as u32);
                if !byte_at(b, e1, 0x2e) {
                    prefix_done((y, None, None, None), e1, base)
                } else if byte_at(b, e1 + 1, 0x2a) {
                    prefix_done((y, None, None, None), e1 + 2, base)
                } else {
                    match scan_number(b, e1 + 1, base, 0xff, "major"@) {
                        Scan::Failed { fault } => Scan::Failed { fault },
                        Scan::Done { value: a, next: e2, .. } => {
                            let a = Some(a as u8);
                            if !byte_at(b, e2, 0x2e) {
                                prefix_done((y, a, None, None), e2, base)
                            } else if byte_at(b, e2 + 1, 0x2a) {
                                prefix_done((y, a, None, None), e2 + 2, base)
                            } else {
                                match scan_number(b, e2 + 1, base, 0xff, "minor"@) {
                                    Scan::Failed { fault } => Scan::Failed { fault },
                                    Scan::Done { value: i, next: e3, .. } => {
                                        let i = Some(i as u8);
                                        if !byte_at(b, e3, 0x2e) {
                                            prefix_done((y, a, i, None), e3, base)
                                        } else if byte_at(b, e3 + 1, 0x2a) {
                                            prefix_done((y, a, i, None), e3 + 2, base)
                                        } else {
                                            match scan_number(b, e3 + 1, base, 0xffff, "patch"@) {
                                                Scan::Failed { fault } => Scan::Failed { fault },
                                                Scan::Done { value: p, next: e4, .. } =>
                                                    prefix_done((y, a, i, Some(p as u16)), e4, base),
                                            }
                                        }
                                    },
                                }
                            }
                        },
                    }
                }
            },
        }
    }
}

/// The comparator symbol at `pos` and the index after it. A bare `*` is the
/// wildcard symbol; text with no symbol is also a `Wildcard` (`1.2.*`), and
/// nothing is consumed.
pub open spec fn scan_comparator(b: Seq<u8>, pos: int) -> (VersionComparator, int) {
    if byte_at(b, pos, 0x3e) && byte_at(b, pos + 1, 0x3d) {
        (VersionComparator::GreaterEqual, pos + 2)
    } else if byte_at(b, pos, 0x3e) {
        (VersionComparator::Greater, pos + 1)
    } else if byte_at(b, pos, 0x3c) && byte_at(b, pos + 1, 0x3d) {
        (VersionComparator::LessEqual, pos + 2)
    } else if byte_at(b, pos, 0x3c) {
        (VersionComparator::Less, pos + 1)
    } else if byte_at(b, pos, 0x3d) {
        (VersionComparator::Exact, pos + 1)
    } else if byte_at(b, pos, 0x7e) {
        (VersionComparator::Tilde, pos + 1)
    } else if byte_at(b, pos, 0x5e) {
        (VersionComparator::Caret, pos + 1)
    } else if byte_at(b, pos, 0x2a) {
        (VersionComparator::Wildcard, pos + 1)
    } else {
        (VersionComparator::Wildcard, pos)
    }
}

/// A constraint at `pos`: an optional comparator symbol, then a version
/// prefix. After the bare wildcard symbol `*` the prefix is empty.
pub open spec fn scan_constraint(b: Seq<u8>, pos: int, base: int) -> Scan<VersionConstraint> {
    let (comparator, p) = scan_comparator(b, pos);
    if comparator == VersionComparator::Wildcard && p > pos {
        Scan::Done {
            value: VersionConstraint { comparator, year: None, major: None, minor: None, patch: None },
            next: p,
            offset: base + p,
        }
    } else {
        match scan_prefix(b, p, base) {
            Scan::Done { value: (year, major, minor, patch), next, offset } => Scan::Done {
                value: VersionConstraint { comparator, year, major, minor, patch },
                next,
                offset,
            },
            Scan::Failed { fault } => Scan::Failed { fault },
        }
    }
}

pub open spec fn prepend(cs: Seq<VersionConstraint>, s: Scan<Seq<VersionConstraint>>) -> Scan<Seq<VersionConstraint>> {
    match s {
        Scan::Done { value, next, offset } => Scan::Done { value: cs + value, next, offset },
        Scan::Failed { fault } => Scan::Failed { fault },
    }
}

/// Constraints at `pos`, each after the first following a `;` and any spaces.
pub open spec fn scan_require(b: Seq<u8>, pos: int, base: int) -> Scan<Seq<VersionConstraint>>
    decreases b.len() - pos,
{
    match scan_constraint(b, pos, base) {
        Scan::Failed { fault } => Scan::Failed { fault },
        Scan::Done { value: c, next: e, offset } => {
            let k = spaces_end(b, e + 1);
            if byte_at(b, e, 0x3b) && pos < k <= b.len() {
                prepend(seq![c], scan_require(b, k, base))
            } else {
                Scan::Done { value: seq![c], next: e, offset }
            }
        },
    }
}

/// The digit run from `pos` ends at the first non-digit.
proof fn lemma_digits_end(b: Seq<u8>, pos: int)
    requires
        0 <= pos <= b.len(),
    ensures
        pos <= digits_end(b, pos) <= b.len(),
        all_digits(b.subrange(pos, digits_end(b, pos))),
        digits_end(b, pos) > pos ==> is_digit(b[digits_end(b, pos) - 1]),
    decreases b.len() - pos,
{
    if pos < b.len() && is_digit(b[pos]) {
        lemma_digits_end(b, pos + 1);
        let e = digits_end(b, pos);
        assert forall|i: int| 0 <= i < e - pos implies is_digit(#[trigger] b.subrange(pos, e)[i]) by {
            if i > 0 {
                assert(b.subrange(pos, e)[i] == b.subrange(pos + 1, e)[i - 1]);
            }
        }
    }
}

proof fn lemma_spaces_end(b: Seq<u8>, pos: int)
    requires
        0 <= pos <= b.len(),
    ensures
        pos <= spaces_end(b, pos) <= b.len(),
        spaces_end(b, pos) > pos ==> b[spaces_end(b, pos) - 1] == 0x20,
    decreases b.len() - pos,
{
    if pos < b.len() && b[pos] == 0x20 {
        lemma_spaces_end(b, pos + 1);
    }
}

/// `r` is the outcome `s` of a scan of `b` from `pos`; a scan that succeeds
/// consumes at least one byte, the last of them ASCII.
pub open spec fn scanned_at<T>(r: Result<(T, usize), VersionError>, b: Seq<u8>, pos: int, s: Scan<T>) -> bool {
    match s {
        Scan::Done { value, next, .. } => r matches Ok((v, n)) && v == value && n == next
            && pos < next <= b.len() && b[next - 1] < 0x80,
        Scan::Failed { fault } => r matches Err(e) && reports(e, fault),
    }
}

fn digit_run_end(b: &[u8], pos: usize) -> (r: usize)
    requires
        pos <= b@.len(),
    ensures
        r == digits_end(b@, pos as int),
{
    let mut i: usize = pos;
    while i < b.len() && b[i] >= 0x30 && b[i] <= 0x39
        invariant
            pos <= i <= b@.len(),
            digits_end(b@, i as int) == digits_end(b@, pos as int),
        decreases b@.len() - i,
    {
        i = i + 1;
    }
    i
}

fn space_run_end(b: &[u8], pos: usize) -> (r: usize)
    requires
        pos <= b@.len(),
    ensures
        r == spaces_end(b@, pos as int),
{
    let mut i: usize = pos;
    while i < b.len() && b[i] == 0x20
        invariant
            pos <= i <= b@.len(),
            spaces_end(b@, i as int) == spaces_end(b@, pos as int),
        decreases b@.len() - i,
    {
        i = i + 1;
    }
    i
}

/// Read the number at `pos`; the error reports the field `name`.
fn number_at(b: &[u8], pos: usize, base: usize, max: u32, name: &str) -> (r: Result<(u32, usize), VersionError>)
    requires
        pos <= b@.len(),
        base + b@.len() <= usize::MAX,
    ensures
        match scan_number(b@, pos as int, base as int, max as nat, name@) {
            Scan::Done { value, next, .. } => r matches Ok((n, e)) && n as nat == value && e == next
                && pos < next <= b@.len() && is_digit(b@[next - 1]),
            Scan::Failed { fault } => r matches Err(e) && reports(e, fault),
        },
{
    let e = digit_run_end(b, pos);
    proof {
        lemma_digits_end(b@, pos as int);
    }
    match parse_field(b, pos, e, max) {
        Some(n) => Ok((n, e)),
        None => Err(VersionError::InvalidPart { part: name.to_string(), start: base + pos, end: base + e }),
    }
}

/// Read a version prefix at `pos`.
fn prefix_at(b: &[u8], pos: usize, base: usize) -> (r: Result<(Prefix, usize), VersionError>)
    requires
        pos <= b@.len(),
        base + b@.len() <= usize::MAX,
    ensures
        scanned_at(r, b@, pos as int, scan_prefix(b@, pos as int, base as int)),
{
    let n = b.len();
    if pos < n && b[pos] == 0x2a {
        return Ok(((None, None, None, None), pos + 1));
    }
    let (y, e1) = match number_at(b, pos, base, 0xffff_ffff, "year") {
        Ok(t) => t,
        Err(e) => return Err(e),
    };
    if !(e1 < n && b[e1] == 0x2e) {
        return Ok(((Some(y), None, None, None), e1));
    }
    if e1 + 1 < n && b[e1 + 1] == 0x2a {
        return Ok(((Some(y), None, None, None), e1 + 2));
    }
    let (a, e2) = match number_at(b, e1 + 1, base, 0xff, "major") {
        Ok(t) => t,
        Err(e) => return Err(e),
    };
    let a = a as u8;
    if !(e2 < n && b[e2] == 0x2e) {
        return Ok(((Some(y), Some(a), None, None), e2));
    }
    if e2 + 1 < n && b[e2 + 1] == 0x2a {
        return Ok(((Some(y), Some(a), None, None), e2 + 2));
    }
    let (i, e3) = match number_at(b, e2 + 1, base, 0xff, "minor") {
        Ok(t) => t,
        Err(e) => return Err(e),
    };
    let i = i as u8;
    if !(e3 < n && b[e3] == 0x2e) {
        return Ok(((Some(y), Some(a), Some(i), None), e3));
    }
    if e3 + 1 < n && b[e3 + 1] == 0x2a {
        return Ok(((Some(y), Some(a), Some(i), None), e3 + 2));
    }
    let (p, e4) = match number_at(b, e3 + 1, base, 0xffff, "patch") {
        Ok(t) => t,
        Err(e) => return Err(e),
    };
    Ok(((Some(y), Some(a), Some(i), Some(p as u16)), e4))
}

/// Read a comparator symbol at `pos`.
fn comparator_at(b: &[u8], pos: usize) -> (r: (VersionComparator, usize))
    requires
        pos <= b@.len(),
    ensures
        r.0 == scan_comparator(b@, pos as int).0,
        r.1 == scan_comparator(b@, pos as int).1,
        pos <= r.1 <= b@.len(),
        r.1 > pos ==> b@[r.1 - 1] < 0x80,
{
    let n = b.len();
    if pos < n && b[pos] == 0x3e {
        if pos + 1 < n && b[pos + 1] == 0x3d {
            (VersionComparator::GreaterEqual, pos + 2)
        } else {
            (VersionComparator::Greater, pos + 1)
        }
    } else if pos < n && b[pos] == 0x3c {
        if pos + 1 < n && b[pos + 1] == 0x3d {
            (VersionComparator::LessEqual, pos + 2)
        } else {
            (VersionComparator::Less, pos + 1)
        }
    } else if pos < n && b[pos] == 0x3d {
        (VersionComparator::Exact, pos + 1)
    } else if pos < n && b[pos] == 0x7e {
        (VersionComparator::Tilde, pos + 1)
    } else if pos < n && b[pos] == 0x5e {
        (VersionComparator::Caret, pos + 1)
    } else if pos < n && b[pos] == 0x2a {
        (VersionComparator::Wildcard, pos + 1)
    } else {
        (VersionComparator::Wildcard, pos)
    }
}

/// Read a constraint at `pos`.
fn constraint_at(b: &[u8], pos: usize, base: usize) -> (r: Result<(VersionConstraint, usize), VersionError>)
    requires
        pos <= b@.len(),
        base + b@.len() <= usize::MAX,
    ensures
        scanned_at(r, b@, pos as int, scan_constraint(b@, pos as int, base as int)),
{
    let (comparator, p) = comparator_at(b, pos);
    if p > pos {
        if let VersionComparator::Wildcard = comparator {
            return Ok((VersionConstraint { comparator, year: None, major: None, minor: None, patch: None }, p));
        }
    }
    match prefix_at(b, p, base) {
        Ok(((year, major, minor, patch), next)) => Ok((VersionConstraint { comparator, year, major, minor, patch }, next)),
        Err(e) => Err(e),
    }
}

/// Read constraints at `pos`, separated by `;` and optional spaces after it.
fn require_at(b: &[u8], pos: usize, base: usize) -> (r: Result<(Vec<VersionConstraint>, usize), VersionError>)
    requires
        pos <= b@.len(),
        base + b@.len() <= usize::MAX,
    ensures
        match scan_require(b@, pos as int, base as int) {
            Scan::Done { value, next, .. } => r matches Ok((cs, n)) && cs@ == value && n == next
                && pos < next <= b@.len() && b@[next - 1] < 0x80,
            Scan::Failed { fault } => r matches Err(e) && reports(e, fault),
        },
{
    let n = b.len();
    let mut constraints: Vec<VersionConstraint> = Vec::new();
    let mut at: usize = pos;
    loop
        invariant
            pos <= at <= n == b@.len(),
            base + n <= usize::MAX,
            constraints@.len() > 0 ==> pos < at,
            scan_require(b@, pos as int, base as int) == prepend(constraints@, scan_require(b@, at as int, base as int)),
        decreases n - at,
    {
        let (c, e) = match constraint_at(b, at, base) {
            Ok(t) => t,
            Err(err) => {
                assert(constraints@ + Seq::<VersionConstraint>::empty() =~= constraints@);
                return Err(err);
            },
        };
        let ghost before = constraints@;
        constraints.push(c);
        if e < n && b[e] == 0x3b {
            let k = space_run_end(b, e + 1);
            proof {
                lemma_spaces_end(b@, e + 1);
                assert(before + (seq![c] + Seq::empty()) =~= constraints@ + Seq::empty());
                assert forall|cs: Seq<VersionConstraint>| #[trigger] (before + (seq![c] + cs)) == constraints@ + cs by {
                    assert(before + (seq![c] + cs) =~= constraints@ + cs);
                }
            }
            at = k;
        } else {
            proof {
                assert(before + seq![c] =~= constraints@);
            }
            return Ok((constraints, e));
        }
    }
}

/// Every constraint that the grammar reads is well formed: its fields form a prefix.
pub proof fn lemma_parsed_constraint_wf(b: Seq<u8>, pos: int, base: int)
    ensures
        scan_constraint(b, pos, base) matches Scan::Done { value, .. } ==> value.wf(),
{
}

/// A scan of constraints ends at the offset of its last index.
proof fn lemma_require_offset(b: Seq<u8>, pos: int, base: int)
    ensures
        scan_require(b, pos, base) matches Scan::Done { next, offset, .. } ==> offset == base + next,
    decreases b.len() - pos,
{
    if let Scan::Done { next: e, .. } = scan_constraint(b, pos, base) {
        let k = spaces_end(b, e + 1);
        if byte_at(b, e, 0x3b) && pos < k <= b.len() {
            lemma_require_offset(b, k, base);
        }
    }
}

/// A whole input that is constraints and nothing more.
pub open spec fn parse_require(b: Seq<u8>) -> Result<Seq<VersionConstraint>, Fault> {
    match scan_require(b, 0, 0) {
        Scan::Done { value, next, offset } => if next < b.len() {
            Err(Fault::Extra { rest: rest_of(b, next), offset })
        } else {
            Ok(value)
        },
        Scan::Failed { fault } => Err(fault),
    }
}

/// Cut `s` at byte `at`, which follows an ASCII byte.
fn tail_from<'a>(s: &'a str, at: usize) -> (r: &'a str)
    requires
        0 < at <= s.spec_bytes().len(),
        s.spec_bytes()[at - 1] < 0x80,
    ensures
        r.spec_bytes() == rest_of(s.spec_bytes(), at as int),
{
    proof {
        encode_utf8_valid_utf8(s@);
        lemma_boundary_after_ascii(s.spec_bytes(), at - 1);
    }
    let (_, rest) = s.split_at(at);
    rest
}

impl VersionComparator {
    /// Read a comparator symbol (`>=`, `>`, `<=`, `<`, `=`, `~`, `^`, `*`) from
    /// the start of `s`, which begins at byte `start` of the whole text. Text
    /// that starts with none of them is a `Wildcard`, and nothing is consumed.
    pub fn parse_advance_version_comparator<'a>(s: &'a str, start: usize) -> (r: Result<(VersionComparator, &'a str, usize), VersionError>)
        requires
            start + s.spec_bytes().len() <= usize::MAX,
        ensures
            r matches Ok((c, rest, offset)) && c == scan_comparator(s.spec_bytes(), 0).0
                && rest.spec_bytes() == rest_of(s.spec_bytes(), scan_comparator(s.spec_bytes(), 0).1)
                && offset == start + scan_comparator(s.spec_bytes(), 0).1,
    {
        let bytes = s.as_bytes();
        let (c, p) = comparator_at(bytes, 0);
        if p == 0 {
            assert(s.spec_bytes().subrange(0, s.spec_bytes().len() as int) =~= s.spec_bytes());
            return Ok((c, s, start));
        }
        Ok((c, tail_from(s, p), start + p))
    }
}

impl VersionConstraint {
    /// Read one constraint (a comparator symbol, then a version prefix such
    /// as `1.2`, `1.2.*` or `*`) from the start of `s`, which begins at byte
    /// `start` of the whole text.
    pub fn parse_advance_version_constraint<'a>(s: &'a str, start: usize) -> (r: Result<(VersionConstraint, &'a str, usize), VersionError>)
        requires
            start + s.spec_bytes().len() <= usize::MAX,
        ensures
            scanned(r, s.spec_bytes(), scan_constraint(s.spec_bytes(), 0, start as int)),
    {
        let bytes = s.as_bytes();
        match constraint_at(bytes, 0, start) {
            Ok((c, next)) => Ok((c, tail_from(s, next), start + next)),
            Err(e) => Err(e),
        }
    }
}

impl VersionRequire {
    /// Read constraints separated by `;` (spaces may follow it) from the start
    /// of `s`, which begins at byte `start` of the whole text.
    pub fn parse_advance_version_request<'a>(s: &'a str, start: usize) -> (r: Result<(VersionRequire, &'a str, usize), VersionError>)
        requires
            start + s.spec_bytes().len() <= usize::MAX,
        ensures
            match scan_require(s.spec_bytes(), 0, start as int) {
                Scan::Done { value, next, offset } => r matches Ok((q, rest, o)) && q.constraints@ == value
                    && 0 <= next <= s.spec_bytes().len() && rest.spec_bytes() == rest_of(s.spec_bytes(), next) && o == offset,
                Scan::Failed { fault } => r matches Err(e) && reports(e, fault),
            },
    {
        let bytes = s.as_bytes();
        proof {
            lemma_require_offset(s.spec_bytes(), 0, start as int);
        }
        match require_at(bytes, 0, start) {
            Ok((constraints, next)) => Ok((VersionRequire { constraints }, tail_from(s, next), start + next)),
            Err(e) => Err(e),
        }
    }

    /// Read a whole text as a requirement.
    pub fn parse(s: &str) -> (r: Result<VersionRequire, VersionError>)
        ensures
            match parse_require(s.spec_bytes()) {
                Ok(cs) => r matches Ok(q) && q.constraints@ == cs,
                Err(f) => r matches Err(e) && reports(e, f),
            },
    {
        // A slice's length is a `usize`, so every offset below fits in one.
        let bytes = s.as_bytes();
        assert(bytes@.len() == bytes.len());
        let (require, rest, offset) = match Self::parse_advance_version_request(s, 0) {
            Ok(t) => t,
            Err(e) => return Err(e),
        };
        if rest.len() > 0 {
            return Err(VersionError::ExtraPart { extra: rest.to_string(), offset });
        }
        Ok(require)
    }
}

impl core::str::FromStr for VersionRequire {
    type Err = VersionError;

    /// Same as [`VersionRequire::parse`].
    fn from_str(s: &str) -> (r: Result<VersionRequire, VersionError>)
        ensures
            match parse_require(s.spec_bytes()) {
                Ok(cs) => r matches Ok(q) && q.constraints@ == cs,
                Err(f) => r matches Err(e) && reports(e, f),
            },
    {
        VersionRequire::parse(s)
    }
}

/// A run of `k` digits at `pos`, followed by a non-digit or the end, ends at `pos + k`.
proof fn lemma_digits_end_at(b: Seq<u8>, pos: int, k: int)
    requires
        0 <= pos <= pos + k <= b.len(),
        forall|j: int| pos <= j < pos + k ==> is_digit(#[trigger] b[j]),
        pos + k < b.len() ==> !is_digit(b[pos + k]),
    ensures
        digits_end(b, pos) == pos + k,
    decreases k,
{
    if k > 0 {
        lemma_digits_end_at(b, pos + 1, k - 1);
    }
}

/// The decimal numeral of `n`, written at `pos` and not followed by a digit, scans to `n`.
proof fn lemma_number_at(b: Seq<u8>, pos: int, base: int, n: nat, max: nat, name: Seq<char>)
    requires
        0 <= pos,
        pos + ascii_bytes(decimal(n)).len() <= b.len(),
        b.subrange(pos, pos + ascii_bytes(decimal(n)).len()) == ascii_bytes(decimal(n)),
        n <= max,
        pos + ascii_bytes(decimal(n)).len() < b.len() ==> !is_digit(b[pos + ascii_bytes(decimal(n)).len()]),
    ensures
        scan_number(b, pos, base, max, name) == (Scan::Done {
            value: n,
            next: pos + ascii_bytes(decimal(n)).len(),
            offset: base + pos + ascii_bytes(decimal(n)).len(),
        }),
{
    let d = ascii_bytes(decimal(n));
    lemma_decimal_digits(n);
    assert forall|j: int| pos <= j < pos + d.len() implies is_digit(#[trigger] b[j]) by {
        assert(b[j] == b.subrange(pos, pos + d.len())[j - pos]);
    }
    lemma_digits_end_at(b, pos, d.len() as int);
}

/// The bytes `w` written at `pos` of `b` hold `part` at `pos + i` when `w` holds it at `i`.
proof fn lemma_window(b: Seq<u8>, pos: int, w: Seq<u8>, i: int, part: Seq<u8>)
    requires
        0 <= pos,
        pos + w.len() <= b.len(),
        b.subrange(pos, pos + w.len()) == w,
        0 <= i,
        i + part.len() <= w.len(),
        w.subrange(i, i + part.len()) == part,
    ensures
        b.subrange(pos + i, pos + i + part.len()) == part,
{
    assert forall|k: int| 0 <= k < part.len() implies #[trigger] b.subrange(pos + i, pos + i + part.len())[k] == part[k] by {
        assert(b.subrange(pos, pos + w.len())[i + k] == b[pos + i + k]);
        assert(w.subrange(i, i + part.len())[k] == w[i + k]);
    }
    assert(b.subrange(pos + i, pos + i + part.len()) =~= part);
}

/// What may follow a prefix without joining it: the end, or a byte that is
/// neither a digit nor `.`.
pub open spec fn ends_prefix(b: Seq<u8>, at: int) -> bool {
    at < b.len() ==> !is_digit(b[at]) && b[at] != 0x2e
}

pub open spec fn digits_of(n: nat) -> Seq<u8> {
    ascii_bytes(decimal(n))
}

pub open spec fn star_bytes(star: bool) -> Seq<u8> {
    if star {
        seq![0x2eu8, 0x2au8]
    } else {
        Seq::empty()
    }
}

/// `w` is written at `pos` of `b`.
pub open spec fn written_at(b: Seq<u8>, pos: int, w: Seq<u8>) -> bool {
    0 <= pos && pos + w.len() <= b.len() && b.subrange(pos, pos + w.len()) == w
}

proof fn lemma_written_index(b: Seq<u8>, pos: int, w: Seq<u8>)
    requires
        written_at(b, pos, w),
    ensures
        forall|k: int| 0 <= k < w.len() ==> #[trigger] b[pos + k] == w[k],
{
    assert forall|k: int| 0 <= k < w.len() implies #[trigger] b[pos + k] == w[k] by {
        assert(b.subrange(pos, pos + w.len())[k] == b[pos + k]);
    }
}

#[verifier::spinoff_prover]
proof fn lemma_prefix_year(b: Seq<u8>, pos: int, base: int, y: u32, star: bool)
    requires
        written_at(b, pos, digits_of(y as nat) + star_bytes(star)),
        ends_prefix(b, pos + digits_of(y as nat).len() + star_bytes(star).len()),
    ensures
        scan_prefix(b, pos, base) == prefix_done((Some(y), None, None, None), pos + digits_of(y as nat).len() + star_bytes(star).len(), base),
{
    let w = digits_of(y as nat) + star_bytes(star);
    let ly = digits_of(y as nat).len() as int;
    lemma_decimal_digits(y as nat);
    lemma_written_index(b, pos, w);
    assert(w.subrange(0, ly) =~= digits_of(y as nat));
    lemma_window(b, pos, w, 0, digits_of(y as nat));
    assert(b[pos] == w[0]);
    if star {
        assert(b[pos + ly] == w[ly]);
        assert(b[pos + ly + 1] == w[ly + 1]);
    }
    lemma_number_at(b, pos, base, y as nat, 0xffff_ffff, "year"@);
}

#[verifier::spinoff_prover]
proof fn lemma_prefix_major(b: Seq<u8>, pos: int, base: int, y: u32, a: u8, star: bool)
    requires
        written_at(b, pos, digits_of(y as nat) + seq![0x2eu8] + digits_of(a as nat) + star_bytes(star)),
        ends_prefix(b, pos + digits_of(y as nat).len() + 1 + digits_of(a as nat).len() + star_bytes(star).len()),
    ensures
        scan_prefix(b, pos, base) == prefix_done((Some(y), Some(a), None, None),
            pos + digits_of(y as nat).len() + 1 + digits_of(a as nat).len() + star_bytes(star).len(), base),
{
    let dy = digits_of(y as nat);
    let da = digits_of(a as nat);
    let w = dy + seq![0x2eu8] + da + star_bytes(star);
    let ly = dy.len() as int;
    let la = da.len() as int;
    lemma_decimal_digits(y as nat);
    lemma_decimal_digits(a as nat);
    lemma_written_index(b, pos, w);
    assert(w.subrange(0, ly) =~= dy);
    assert(w.subrange(ly + 1, ly + 1 + la) =~= da);
    lemma_window(b, pos, w, 0, dy);
    lemma_window(b, pos, w, ly + 1, da);
    assert(b[pos] == w[0]);
    assert(b[pos + ly] == w[ly]);
    assert(b[pos + ly + 1] == w[ly + 1]);
    if star {
        assert(b[pos + ly + 1 + la] == w[ly + 1 + la]);
        assert(b[pos + ly + 2 + la] == w[ly + 2 + la]);
    }
    lemma_number_at(b, pos, base, y as nat, 0xffff_ffff, "year"@);
    lemma_number_at(b, pos + ly + 1, base, a as nat, 0xff, "major"@);
}

#[verifier::spinoff_prover]
proof fn lemma_prefix_minor(b: Seq<u8>, pos: int, base: int, y: u32, a: u8, i: u8, star: bool)
    requires
        written_at(b, pos, digits_of(y as nat) + seq![0x2eu8] + digits_of(a as nat) + seq![0x2eu8] + digits_of(i as nat) + star_bytes(star)),
        ends_prefix(b, pos + digits_of(y as nat).len() + 1 + digits_of(a as nat).len() + 1 + digits_of(i as nat).len() + star_bytes(star).len()),
    ensures
        scan_prefix(b, pos, base) == prefix_done((Some(y), Some(a), Some(i), None),
            pos + digits_of(y as nat).len() + 1 + digits_of(a as nat).len() + 1 + digits_of(i as nat).len() + star_bytes(star).len(), base),
{
    let dy = digits_of(y as nat);
    let da = digits_of(a as nat);
    let di = digits_of(i as nat);
    let w = dy + seq![0x2eu8] + da + seq![0x2eu8] + di + star_bytes(star);
    let ly = dy.len() as int;
    let la = da.len() as int;
    let li = di.len() as int;
    let o1 = ly + 1;
    let o2 = o1 + la + 1;
    lemma_decimal_digits(y as nat);
    lemma_decimal_digits(a as nat);
    lemma_decimal_digits(i as nat);
    lemma_written_index(b, pos, w);
    assert(w.subrange(0, ly) =~= dy);
    assert(w.subrange(o1, o1 + la) =~= da);
    assert(w.subrange(o2, o2 + li) =~= di);
    lemma_window(b, pos, w, 0, dy);
    lemma_window(b, pos, w, o1, da);
    lemma_window(b, pos, w, o2, di);
    assert(b[pos] == w[0]);
    assert(b[pos + ly] == w[ly]);
    assert(b[pos + o1] == w[o1]);
    assert(b[pos + o1 + la] == w[o1 + la]);
    assert(b[pos + o2] == w[o2]);
    if star {
        assert(b[pos + o2 + li] == w[o2 + li]);
        assert(b[pos + o2 + li + 1] == w[o2 + li + 1]);
    }
    lemma_number_at(b, pos, base, y as nat, 0xffff_ffff, "year"@);
    lemma_number_at(b, pos + o1, base, a as nat, 0xff, "major"@);
    lemma_number_at(b, pos + o2, base, i as nat, 0xff, "minor"@);
}

#[verifier::spinoff_prover]
proof fn lemma_prefix_full(b: Seq<u8>, pos: int, base: int, y: u32, a: u8, i: u8, p: u16)
    requires
        written_at(b, pos, digits_of(y as nat) + seq![0x2eu8] + digits_of(a as nat) + seq![0x2eu8] + digits_of(i as nat) + seq![0x2eu8] + digits_of(p as nat)),
        ends_prefix(b, pos + digits_of(y as nat).len() + 1 + digits_of(a as nat).len() + 1 + digits_of(i as nat).len() + 1 + digits_of(p as nat).len()),
    ensures
        scan_prefix(b, pos, base) == prefix_done((Some(y), Some(a), Some(i), Some(p)),
            pos + digits_of(y as nat).len() + 1 + digits_of(a as nat).len() + 1 + digits_of(i as nat).len() + 1 + digits_of(p as nat).len(), base),
{
    let dy = digits_of(y as nat);
    let da = digits_of(a as nat);
    let di = digits_of(i as nat);
    let dp = digits_of(p as nat);
    let w = dy + seq![0x2eu8] + da + seq![0x2eu8] + di + seq![0x2eu8] + dp;
    let ly = dy.len() as int;
    let la = da.len() as int;
    let li = di.len() as int;
    let o1 = ly + 1;
    let o2 = o1 + la + 1;
    let o3 = o2 + li + 1;
    lemma_decimal_digits(y as nat);
    lemma_decimal_digits(a as nat);
    lemma_decimal_digits(i as nat);
    lemma_decimal_digits(p as nat);
    lemma_written_index(b, pos, w);
    assert(w.subrange(0, ly) =~= dy);
    assert(w.subrange(o1, o1 + la) =~= da);
    assert(w.subrange(o2, o2 + li) =~= di);
    assert(w.subrange(o3, o3 + dp.len()) =~= dp);
    lemma_window(b, pos, w, 0, dy);
    lemma_window(b, pos, w, o1, da);
    lemma_window(b, pos, w, o2, di);
    lemma_window(b, pos, w, o3, dp);
    assert(b[pos] == w[0]);
    assert(b[pos + ly] == w[ly]);
    assert(b[pos + o1] == w[o1]);
    assert(b[pos + o1 + la] == w[o1 + la]);
    assert(b[pos + o2] == w[o2]);
    assert(b[pos + o2 + li] == w[o2 + li]);
    assert(b[pos + o3] == w[o3]);
    lemma_number_at(b, pos, base, y as nat, 0xffff_ffff, "year"@);
    lemma_number_at(b, pos + o1, base, a as nat, 0xff, "major"@);
    lemma_number_at(b, pos + o2, base, i as nat, 0xff, "minor"@);
    lemma_number_at(b, pos + o3, base, p as nat, 0xffff, "patch"@);
}

proof fn lemma_ascii_bytes_split(a: Seq<char>, b: Seq<char>)
    ensures
        ascii_bytes(a + b) == ascii_bytes(a) + ascii_bytes(b),
{
    assert(ascii_bytes(a + b) =~= ascii_bytes(a) + ascii_bytes(b));
}

/// The bytes of a prefix's text, field by field.
proof fn lemma_prefix_bytes(c: VersionConstraint)
    ensures
        ({
            let w = ascii_bytes(prefix_text(c));
            let star = star_bytes(c.comparator == VersionComparator::Wildcard);
            let dot = seq![0x2eu8];
            match c.year {
                None => w == seq![0x2au8],
                Some(y) => match c.major {
                    None => w == digits_of(y as nat) + star,
                    Some(a) => match c.minor {
                        None => w == digits_of(y as nat) + dot + digits_of(a as nat) + star,
                        Some(i) => match c.patch {
                            None => w == digits_of(y as nat) + dot + digits_of(a as nat) + dot + digits_of(i as nat) + star,
                            Some(p) => w == digits_of(y as nat) + dot + digits_of(a as nat) + dot + digits_of(i as nat) + dot + digits_of(p as nat),
                        },
                    },
                },
            }
        }),
{
    let is_star = c.comparator == VersionComparator::Wildcard;
    let tail = if is_star { seq!['.', '*'] } else { Seq::<char>::empty() };
    let dot = seq!['.'];
    assert(ascii_bytes(tail) =~= star_bytes(is_star));
    assert(ascii_bytes(dot) =~= seq![0x2eu8]);
    match c.year {
        None => {
            assert(ascii_bytes(prefix_text(c)) =~= seq![0x2au8]);
        },
        Some(y) => {
            let rest = match c.major {
                None => tail,
                Some(a) => dot + decimal(a as nat) + match c.minor {
                    None => tail,
                    Some(i) => dot + decimal(i as nat) + match c.patch {
                        None => tail,
                        Some(p) => dot + decimal(p as nat),
                    },
                },
            };
            assert(prefix_text(c) == decimal(y as nat) + rest);
            lemma_ascii_bytes_split(decimal(y as nat), rest);
            if let Some(a) = c.major {
                let rest2 = match c.minor {
                    None => tail,
                    Some(i) => dot + decimal(i as nat) + match c.patch {
                        None => tail,
                        Some(p) => dot + decimal(p as nat),
                    },
                };
                lemma_ascii_bytes_split(dot + decimal(a as nat), rest2);
                lemma_ascii_bytes_split(dot, decimal(a as nat));
                if let Some(i) = c.minor {
                    let rest3 = match c.patch {
                        None => tail,
                        Some(p) => dot + decimal(p as nat),
                    };
                    lemma_ascii_bytes_split(dot + decimal(i as nat), rest3);
                    lemma_ascii_bytes_split(dot, decimal(i as nat));
                    if let Some(p) = c.patch {
                        lemma_ascii_bytes_split(dot, decimal(p as nat));
                    }
                }
            }
        },
    }
}

/// The text of a well-formed prefix, followed by a byte that cannot extend
/// it, scans back to the prefix.
#[verifier::spinoff_prover]
proof fn lemma_prefix_text(b: Seq<u8>, pos: int, base: int, c: VersionConstraint)
    requires
        c.wf(),
        written_at(b, pos, ascii_bytes(prefix_text(c))),
        ends_prefix(b, pos + ascii_bytes(prefix_text(c)).len()),
    ensures
        scan_prefix(b, pos, base) == prefix_done((c.year, c.major, c.minor, c.patch), pos + ascii_bytes(prefix_text(c)).len(), base),
{
    lemma_prefix_bytes(c);
    let star = c.comparator == VersionComparator::Wildcard;
    match c.year {
        None => {
            assert(b[pos] == 0x2au8) by {
                assert(b.subrange(pos, pos + 1)[0] == b[pos]);
            }
        },
        Some(y) => match c.major {
            None => lemma_prefix_year(b, pos, base, y, star),
            Some(a) => match c.minor {
                None => lemma_prefix_major(b, pos, base, y, a, star),
                Some(i) => match c.patch {
                    None => lemma_prefix_minor(b, pos, base, y, a, i, star),
                    Some(p) => lemma_prefix_full(b, pos, base, y, a, i, p),
                },
            },
        },
    }
}

/// A prefix's text starts with a digit or `*`.
proof fn lemma_prefix_first(c: VersionConstraint)
    ensures
        ascii_bytes(prefix_text(c)).len() > 0,
        ascii_bytes(prefix_text(c))[0] == 0x2a || is_digit(ascii_bytes(prefix_text(c))[0]),
{
    lemma_prefix_bytes(c);
    if let Some(y) = c.year {
        lemma_decimal_digits(y as nat);
        assert(digits_of(y as nat)[0] == ascii_bytes(prefix_text(c))[0]);
    }
}

/// The bytes of each comparator symbol.
proof fn lemma_symbol_bytes(k: VersionComparator)
    ensures
        ascii_bytes(comparator_symbol(k)) == match k {
            VersionComparator::Exact => seq![0x3du8],
            VersionComparator::Greater => seq![0x3eu8],
            VersionComparator::GreaterEqual => seq![0x3eu8, 0x3du8],
            VersionComparator::Less => seq![0x3cu8],
            VersionComparator::LessEqual => seq![0x3cu8, 0x3du8],
            VersionComparator::Tilde => seq![0x7eu8],
            VersionComparator::Caret => seq![0x5eu8],
            VersionComparator::Wildcard => seq![0x2au8],
        },
{
    match k {
        VersionComparator::Exact => assert(ascii_bytes(comparator_symbol(k)) =~= seq![0x3du8]),
        VersionComparator::Greater => assert(ascii_bytes(comparator_symbol(k)) =~= seq![0x3eu8]),
        VersionComparator::GreaterEqual => assert(ascii_bytes(comparator_symbol(k)) =~= seq![0x3eu8, 0x3du8]),
        VersionComparator::Less => assert(ascii_bytes(comparator_symbol(k)) =~= seq![0x3cu8]),
        VersionComparator::LessEqual => assert(ascii_bytes(comparator_symbol(k)) =~= seq![0x3cu8, 0x3du8]),
        VersionComparator::Tilde => assert(ascii_bytes(comparator_symbol(k)) =~= seq![0x7eu8]),
        VersionComparator::Caret => assert(ascii_bytes(comparator_symbol(k)) =~= seq![0x5eu8]),
        VersionComparator::Wildcard => assert(ascii_bytes(comparator_symbol(k)) =~= seq![0x2au8]),
    }
}

/// The text of a well-formed constraint, followed by a byte that cannot
/// extend it, scans back to the constraint.
#[verifier::spinoff_prover]
proof fn lemma_constraint_text(b: Seq<u8>, pos: int, base: int, c: VersionConstraint)
    requires
        c.wf(),
        written_at(b, pos, ascii_bytes(constraint_text(c))),
        ends_prefix(b, pos + ascii_bytes(constraint_text(c)).len()),
    ensures
        scan_constraint(b, pos, base) == (Scan::Done {
            value: c,
            next: pos + ascii_bytes(constraint_text(c)).len(),
            offset: base + pos + ascii_bytes(constraint_text(c)).len(),
        }),
{
    if c.comparator != VersionComparator::Wildcard {
        lemma_symbol_constraint_text(b, pos, base, c);
    } else if c.year is None {
        lemma_star_constraint_text(b, pos, base, c);
    } else {
        lemma_wildcard_constraint_text(b, pos, base, c);
    }
}

/// The bare wildcard `*` scans back to itself.
#[verifier::spinoff_prover]
proof fn lemma_star_constraint_text(b: Seq<u8>, pos: int, base: int, c: VersionConstraint)
    requires
        c.wf(),
        c.comparator == VersionComparator::Wildcard,
        c.year is None,
        written_at(b, pos, ascii_bytes(constraint_text(c))),
    ensures
        scan_constraint(b, pos, base) == (Scan::Done {
            value: c,
            next: pos + ascii_bytes(constraint_text(c)).len(),
            offset: base + pos + ascii_bytes(constraint_text(c)).len(),
        }),
{
    let t = ascii_bytes(constraint_text(c));
    assert(t =~= seq![0x2au8]);
    assert(b[pos] == t[0]) by {
        assert(b.subrange(pos, pos + t.len())[0] == b[pos]);
    }
    assert(scan_comparator(b, pos) == (VersionComparator::Wildcard, pos + 1));
}

/// A wildcard with fields, such as `1.2.*`, scans back to itself.
#[verifier::spinoff_prover]
proof fn lemma_wildcard_constraint_text(b: Seq<u8>, pos: int, base: int, c: VersionConstraint)
    requires
        c.wf(),
        c.comparator == VersionComparator::Wildcard,
        c.year is Some,
        written_at(b, pos, ascii_bytes(constraint_text(c))),
        ends_prefix(b, pos + ascii_bytes(constraint_text(c)).len()),
    ensures
        scan_constraint(b, pos, base) == (Scan::Done {
            value: c,
            next: pos + ascii_bytes(constraint_text(c)).len(),
            offset: base + pos + ascii_bytes(constraint_text(c)).len(),
        }),
{
    let w = ascii_bytes(prefix_text(c));
    let y = c.year->Some_0;
    assert(ascii_bytes(constraint_text(c)) == w);
    lemma_ascii_bytes_split(decimal(y as nat), prefix_text(c).subrange(decimal(y as nat).len() as int, prefix_text(c).len() as int));
    assert(prefix_text(c) =~= decimal(y as nat) + prefix_text(c).subrange(decimal(y as nat).len() as int, prefix_text(c).len() as int));
    lemma_decimal_digits(y as nat);
    assert(w[0] == digits_of(y as nat)[0]);
    assert(b[pos] == w[0]) by {
        assert(b.subrange(pos, pos + w.len())[0] == b[pos]);
    }
    assert(is_digit(b[pos]));
    assert(scan_comparator(b, pos) == (VersionComparator::Wildcard, pos));
    lemma_prefix_text(b, pos, base, c);
}

/// A constraint with a symbol other than the wildcard's scans back to itself.
#[verifier::spinoff_prover]
proof fn lemma_symbol_constraint_text(b: Seq<u8>, pos: int, base: int, c: VersionConstraint)
    requires
        c.wf(),
        c.comparator != VersionComparator::Wildcard,
        written_at(b, pos, ascii_bytes(constraint_text(c))),
        ends_prefix(b, pos + ascii_bytes(constraint_text(c)).len()),
    ensures
        scan_constraint(b, pos, base) == (Scan::Done {
            value: c,
            next: pos + ascii_bytes(constraint_text(c)).len(),
            offset: base + pos + ascii_bytes(constraint_text(c)).len(),
        }),
{
    let t = ascii_bytes(constraint_text(c));
    let w = ascii_bytes(prefix_text(c));
    lemma_prefix_first(c);
    lemma_written_index(b, pos, t);
    let sym = ascii_bytes(comparator_symbol(c.comparator));
    lemma_symbol_bytes(c.comparator);
    assert(t =~= sym + w);
    assert(t.subrange(sym.len() as int, sym.len() + w.len() as int) =~= w);
    lemma_window(b, pos, t, sym.len() as int, w);
    assert(b[pos] == t[0]);
    assert(b[pos + sym.len()] == t[sym.len() as int]);
    if sym.len() == 2 {
        assert(b[pos + 1] == t[1]);
    }
    lemma_prefix_text(b, pos + sym.len(), base, c);
}

/// The text of several constraints, split after the first.
proof fn lemma_require_text_front(cs: Seq<VersionConstraint>)
    requires
        cs.len() >= 2,
    ensures
        require_text(cs) == constraint_text(cs[0]) + seq![';', ' '] + require_text(cs.drop_first()),
    decreases cs.len(),
{
    if cs.len() == 2 {
        assert(cs.drop_last() =~= seq![cs[0]]);
        assert(cs.drop_first() =~= seq![cs[1]]);
        assert(require_text(seq![cs[0]]) == constraint_text(cs[0]));
        assert(require_text(seq![cs[1]]) == constraint_text(cs[1]));
        assert(cs.last() == cs[1]);
    } else {
        lemma_require_text_front(cs.drop_last());
        assert(cs.drop_last().drop_first() =~= cs.drop_first().drop_last());
        assert(cs.drop_first().last() == cs.last());
        assert(cs.drop_last()[0] == cs[0]);
        assert(require_text(cs) =~= constraint_text(cs[0]) + seq![';', ' '] + require_text(cs.drop_first()));
    }
}

/// A constraint's text does not start with a space.
proof fn lemma_constraint_first(c: VersionConstraint)
    ensures
        ascii_bytes(constraint_text(c)).len() > 0,
        ascii_bytes(constraint_text(c))[0] != 0x20,
{
    lemma_prefix_first(c);
    lemma_symbol_bytes(c.comparator);
    if c.comparator != VersionComparator::Wildcard {
        assert(ascii_bytes(constraint_text(c)) =~= ascii_bytes(comparator_symbol(c.comparator)) + ascii_bytes(prefix_text(c)));
    }
}

/// The text of well-formed constraints, at the end of the input, scans back to them.
#[verifier::spinoff_prover]
proof fn lemma_require_text_at(b: Seq<u8>, pos: int, base: int, cs: Seq<VersionConstraint>)
    requires
        cs.len() > 0,
        forall|i: int| 0 <= i < cs.len() ==> (#[trigger] cs[i]).wf(),
        written_at(b, pos, ascii_bytes(require_text(cs))),
        pos + ascii_bytes(require_text(cs)).len() == b.len(),
    ensures
        scan_require(b, pos, base) == (Scan::Done { value: cs, next: b.len() as int, offset: base + b.len() }),
    decreases cs.len(),
{
    let r = ascii_bytes(require_text(cs));
    let t = ascii_bytes(constraint_text(cs[0]));
    let lt: int = t.len() as int;
    if cs.len() == 1 {
        assert(r == t);
        lemma_constraint_text(b, pos, base, cs[0]);
        assert(seq![cs[0]] =~= cs);
    } else {
        let rest = cs.drop_first();
        let r2 = ascii_bytes(require_text(rest));
        lemma_require_text_front(cs);
        assert(r =~= t + seq![0x3bu8, 0x20u8] + r2);
        assert(r.subrange(0, lt) =~= t);
        assert(r.subrange(lt + 2, lt + 2 + r2.len()) =~= r2);
        lemma_window(b, pos, r, 0, t);
        lemma_window(b, pos, r, lt + 2, r2);
        lemma_written_index(b, pos, r);
        let e = pos + lt;
        assert(b[e] == r[lt]);
        assert(b[e + 1] == r[lt + 1]);
        assert(r.len() >= 1);
        lemma_constraint_text(b, pos, base, cs[0]);
        assert forall|i: int| 0 <= i < rest.len() implies (#[trigger] rest[i]).wf() by {
            assert(rest[i] == cs[i + 1]);
        }
        if rest.len() > 1 {
            lemma_require_text_front(rest);
            assert(ascii_bytes(require_text(rest)) =~= ascii_bytes(constraint_text(rest[0])) + ascii_bytes(seq![';', ' '] + require_text(rest.drop_first())));
        }
        lemma_constraint_first(rest[0]);
        assert(r2[0] == ascii_bytes(constraint_text(rest[0]))[0]);
        assert(b[e + 2] == r2[0]) by {
            assert(b.subrange(e + 2, e + 2 + r2.len())[0] == b[e + 2]);
        }
        reveal_with_fuel(spaces_end, 3);
        assert(spaces_end(b, e + 1) == e + 2);
        lemma_require_text_at(b, e + 2, base, rest);
        assert(seq![cs[0]] + rest =~= cs);
    }
}

proof fn lemma_ascii_concat(a: Seq<char>, b: Seq<char>)
    requires
        is_ascii_chars(a),
        is_ascii_chars(b),
    ensures
        is_ascii_chars(a + b),
{
    assert forall|i: int| 0 <= i < (a + b).len() implies '\0' <= #[trigger] (a + b)[i] <= '\u{7f}' by {
        if i < a.len() {
            assert((a + b)[i] == a[i]);
        } else {
            assert((a + b)[i] == b[i - a.len()]);
        }
    }
}

/// A constraint's text is ASCII.
#[verifier::spinoff_prover]
proof fn lemma_constraint_text_ascii(c: VersionConstraint)
    ensures
        is_ascii_chars(constraint_text(c)),
{
    let star = c.comparator == VersionComparator::Wildcard;
    let tail = if star { seq!['.', '*'] } else { Seq::<char>::empty() };
    let dot = seq!['.'];
    assert(is_ascii_chars(tail));
    assert(is_ascii_chars(dot));
    assert(is_ascii_chars(seq!['*']));
    assert(is_ascii_chars(comparator_symbol(c.comparator)));
    match c.year {
        None => {},
        Some(y) => {
            lemma_decimal_digits(y as nat);
            match c.major {
                None => lemma_ascii_concat(decimal(y as nat), tail),
                Some(a) => {
                    lemma_decimal_digits(a as nat);
                    lemma_ascii_concat(dot, decimal(a as nat));
                    match c.minor {
                        None => {
                            lemma_ascii_concat(dot + decimal(a as nat), tail);
                            lemma_ascii_concat(decimal(y as nat), dot + decimal(a as nat) + tail);
                        },
                        Some(i) => {
                            lemma_decimal_digits(i as nat);
                            lemma_ascii_concat(dot, decimal(i as nat));
                            let rest = match c.patch {
                                None => tail,
                                Some(p) => dot + decimal(p as nat),
                            };
                            if let Some(p) = c.patch {
                                lemma_decimal_digits(p as nat);
                                lemma_ascii_concat(dot, decimal(p as nat));
                            }
                            lemma_ascii_concat(dot + decimal(i as nat), rest);
                            lemma_ascii_concat(dot + decimal(a as nat), dot + decimal(i as nat) + rest);
                            lemma_ascii_concat(decimal(y as nat), dot + decimal(a as nat) + (dot + decimal(i as nat) + rest));
                        },
                    }
                },
            }
        },
    }
    if !star {
        lemma_ascii_concat(comparator_symbol(c.comparator), prefix_text(c));
    }
}

/// The text of constraints is ASCII.
proof fn lemma_require_text_ascii(cs: Seq<VersionConstraint>)
    ensures
        is_ascii_chars(require_text(cs)),
    decreases cs.len(),
{
    if cs.len() == 1 {
        lemma_constraint_text_ascii(cs[0]);
    } else if cs.len() > 1 {
        lemma_require_text_ascii(cs.drop_last());
        lemma_constraint_text_ascii(cs.last());
        assert(is_ascii_chars(seq![';', ' ']));
        lemma_ascii_concat(require_text(cs.drop_last()), seq![';', ' ']);
        lemma_ascii_concat(require_text(cs.drop_last()) + seq![';', ' '], constraint_text(cs.last()));
    }
}

/// Formatting well-formed constraints and parsing the text gives them back.
pub proof fn lemma_parse_require_text(cs: Seq<VersionConstraint>)
    requires
        cs.len() > 0,
        forall|i: int| 0 <= i < cs.len() ==> (#[trigger] cs[i]).wf(),
    ensures
        parse_require(encode_utf8(require_text(cs))) == Ok::<Seq<VersionConstraint>, Fault>(cs),
{
    let t = require_text(cs);
    lemma_require_text_ascii(cs);
    is_ascii_chars_encode_utf8(t);
    assert(encode_utf8(t) =~= ascii_bytes(t));
    let b = encode_utf8(t);
    assert(b.subrange(0, b.len() as int) =~= b);
    lemma_require_text_at(b, 0, 0, cs);
}

} // verus!
