use vstd::prelude::*;
use vstd::utf8::*;
use crate::parse::{parse_version, rest_of, scan_dotted, scan_patch, scan_version, Fault, Scan};
use crate::text::{all_digits, digits_value, field_value, find_from, is_digit};
use crate::version::Version;
use crate::version_req::{VersionComparator, VersionConstraint, VersionRequire};

verus! {

/// The character of decimal digit `d`.
pub open spec fn digit_char(d: nat) -> char {
    ((0x30 + d) as u8) as char
}

/// The decimal numeral of `n`, without leading zeros.
pub open spec fn decimal(n: nat) -> Seq<char>
    decreases n,
{
    if n < 10 {
        seq![digit_char(n)]
    } else {
        decimal(n / 10).push(digit_char(n % 10))
    }
}

/// The canonical text of a version: `year.major.minor.patch` in decimal.
pub open spec fn version_text(v: Version) -> Seq<char> {
    decimal(v.year as nat) + seq!['.'] + decimal(v.major as nat) + seq!['.'] + decimal(
        v.minor as nat,
    ) + seq!['.'] + decimal(v.patch as nat)
}

/// The one-character text of digit `d`.
fn digit_str(d: u32) -> (r: &'static str)
    requires
        d < 10,
    ensures
        r@ == seq![digit_char(d as nat)],
{
    match d {
        0 => {
            proof { reveal_strlit("0"); }
            "0"
        },
        1 => {
            proof { reveal_strlit("1"); }
            "1"
        },
        2 => {
            proof { reveal_strlit("2"); }
            "2"
        },
        3 => {
            proof { reveal_strlit("3"); }
            "3"
        },
        4 => {
            proof { reveal_strlit("4"); }
            "4"
        },
        5 => {
            proof { reveal_strlit("5"); }
            "5"
        },
        6 => {
            proof { reveal_strlit("6"); }
            "6"
        },
        7 => {
            proof { reveal_strlit("7"); }
            "7"
        },
        8 => {
            proof { reveal_strlit("8"); }
            "8"
        },
        _ => {
            proof { reveal_strlit("9"); }
            "9"
        },
    }
}

/// Append the decimal numeral of `n` to `out`.
pub(crate) fn push_decimal(out: &mut String, n: u32)
    ensures
        final(out)@ == old(out)@ + decimal(n as nat),
    decreases n,
{
    if n >= 10 {
        push_decimal(out, n / 10);
    }
    out.append(digit_str(n % 10));
}

impl Version {
    /// The canonical text `year.major.minor.patch`, each field in decimal.
    pub fn to_string(&self) -> (r: String)
        ensures
            r@ == version_text(*self),
    {
        let mut out = String::new();
        push_decimal(&mut out, self.year);
        out.append(".");
        push_decimal(&mut out, self.major as u32);
        out.append(".");
        push_decimal(&mut out, self.minor as u32);
        out.append(".");
        push_decimal(&mut out, self.patch as u32);
        proof {
            reveal_strlit(".");
        }
        out
    }
}

/// The symbol of a comparator; a wildcard has none of its own.
pub open spec fn comparator_symbol(c: VersionComparator) -> Seq<char> {
    match c {
        VersionComparator::Exact => seq!['='],
        VersionComparator::Greater => seq!['>'],
        VersionComparator::GreaterEqual => seq!['>', '='],
        VersionComparator::Less => seq!['<'],
        VersionComparator::LessEqual => seq!['<', '='],
        VersionComparator::Tilde => seq!['~'],
        VersionComparator::Caret => seq!['^'],
        VersionComparator::Wildcard => seq!['*'],
    }
}

/// The text of a version prefix, fields joined by `.`; a wildcard ends in `*`
/// where a field is absent, as does a prefix with no field.
pub open spec fn prefix_text(c: VersionConstraint) -> Seq<char> {
    let star = c.comparator == VersionComparator::Wildcard;
    match c.year {
        None => seq!['*'],
        Some(y) => decimal(y as nat) + match c.major {
            None => if star { seq!['.', '*'] } else { Seq::empty() },
            Some(a) => seq!['.'] + decimal(a as nat) + match c.minor {
                None => if star { seq!['.', '*'] } else { Seq::empty() },
                Some(i) => seq!['.'] + decimal(i as nat) + match c.patch {
                    None => if star { seq!['.', '*'] } else { Seq::empty() },
                    Some(p) => seq!['.'] + decimal(p as nat),
                },
            },
        },
    }
}

/// The text of a constraint: its symbol (none for a wildcard), then its prefix.
pub open spec fn constraint_text(c: VersionConstraint) -> Seq<char> {
    if c.comparator == VersionComparator::Wildcard {
        prefix_text(c)
    } else {
        comparator_symbol(c.comparator) + prefix_text(c)
    }
}

/// The texts of `cs` joined by `; `.
pub open spec fn require_text(cs: Seq<VersionConstraint>) -> Seq<char>
    decreases cs.len(),
{
    if cs.len() == 0 {
        Seq::empty()
    } else if cs.len() == 1 {
        constraint_text(cs[0])
    } else {
        require_text(cs.drop_last()) + seq![';', ' '] + constraint_text(cs.last())
    }
}

impl VersionComparator {
    /// The symbol: `=`, `>`, `>=`, `<`, `<=`, `~`, `^` or `*`.
    pub fn symbol(&self) -> (r: &'static str)
        ensures
            r@ == comparator_symbol(*self),
    {
        match self {
            VersionComparator::Exact => {
                proof { reveal_strlit("="); }
                "="
            },
            VersionComparator::Greater => {
                proof { reveal_strlit(">"); }
                ">"
            },
            VersionComparator::GreaterEqual => {
                proof { reveal_strlit(">="); }
                ">="
            },
            VersionComparator::Less => {
                proof { reveal_strlit("<"); }
                "<"
            },
            VersionComparator::LessEqual => {
                proof { reveal_strlit("<="); }
                "<="
            },
            VersionComparator::Tilde => {
                proof { reveal_strlit("~"); }
                "~"
            },
            VersionComparator::Caret => {
                proof { reveal_strlit("^"); }
                "^"
            },
            VersionComparator::Wildcard => {
                proof { reveal_strlit("*"); }
                "*"
            },
        }
    }

    /// Same as [`VersionComparator::symbol`], as an owned string.
    pub fn to_string(&self) -> (r: String)
        ensures
            r@ == comparator_symbol(*self),
    {
        self.symbol().to_string()
    }
}

/// Append `.*` to `out` when `star` holds.
fn push_star(out: &mut String, star: bool)
    ensures
        final(out)@ == old(out)@ + if star { seq!['.', '*'] } else { Seq::empty() },
{
    if star {
        out.append(".*");
        proof {
            reveal_strlit(".*");
        }
    } else {
        assert(old(out)@ + Seq::<char>::empty() =~= old(out)@);
    }
}

/// Append `.` and the decimal numeral of `n` to `out`.
fn push_field(out: &mut String, n: u32)
    ensures
        final(out)@ == old(out)@ + (seq!['.'] + decimal(n as nat)),
{
    out.append(".");
    proof {
        reveal_strlit(".");
    }
    push_decimal(out, n);
    assert(final(out)@ =~= old(out)@ + (seq!['.'] + decimal(n as nat)));
}

impl VersionConstraint {
    /// The text of the constraint, such as `>=1.2`, `1.2.*` or `*`.
    pub fn to_string(&self) -> (r: String)
        ensures
            r@ == constraint_text(*self),
    {
        let star = match self.comparator {
            VersionComparator::Wildcard => true,
            _ => false,
        };
        let mut out = String::new();
        if !star {
            out.append(self.comparator.symbol());
        }
        let ghost head = out@;
        match self.year {
            None => {
                out.append("*");
                proof {
                    reveal_strlit("*");
                }
            },
            Some(y) => {
                push_decimal(&mut out, y);
                match self.major {
                    None => push_star(&mut out, star),
                    Some(a) => {
                        push_field(&mut out, a as u32);
                        match self.minor {
                            None => push_star(&mut out, star),
                            Some(i) => {
                                push_field(&mut out, i as u32);
                                match self.patch {
                                    None => push_star(&mut out, star),
                                    Some(p) => push_field(&mut out, p as u32),
                                }
                            },
                        }
                    },
                }
            },
        }
        assert(out@ =~= head + prefix_text(*self));
        out
    }
}

impl VersionRequire {
    /// The constraints' texts joined by `; `.
    pub fn to_string(&self) -> (r: String)
        ensures
            r@ == require_text(self.constraints@),
    {
        let mut out = String::new();
        let mut i: usize = 0;
        while i < self.constraints.len()
            invariant
                0 <= i <= self.constraints@.len(),
                out@ == require_text(self.constraints@.subrange(0, i as int)),
            decreases self.constraints@.len() - i,
        {
            let ghost before = self.constraints@.subrange(0, i as int);
            let ghost after = self.constraints@.subrange(0, i + 1);
            assert(after.drop_last() =~= before);
            if i > 0 {
                out.append("; ");
                proof {
                    reveal_strlit("; ");
                }
            }
            let text = self.constraints[i].to_string();
            out.append(text.as_str());
            i = i + 1;
        }
        assert(self.constraints@.subrange(0, self.constraints@.len() as int) =~= self.constraints@);
        out
    }
}

/// The bytes of a text whose characters are all ASCII.
pub open spec fn ascii_bytes(cs: Seq<char>) -> Seq<u8> {
    cs.map_values(|c: char| c as u8)
}

/// A decimal numeral is a non-empty run of ASCII digits that spells its number.
pub proof fn lemma_decimal_digits(n: nat)
    ensures
        decimal(n).len() > 0,
        is_ascii_chars(decimal(n)),
        all_digits(ascii_bytes(decimal(n))),
        digits_value(ascii_bytes(decimal(n))) == n,
    decreases n,
{
    let b = ascii_bytes(decimal(n));
    if n < 10 {
        assert(b.drop_last() =~= Seq::<u8>::empty());
        assert(b.last() == (0x30 + n) as u8);
        assert(digits_value(b) == digits_value(b.drop_last()) * 10 + (b.last() - 0x30) as nat);
    } else {
        lemma_decimal_digits(n / 10);
        let prev = ascii_bytes(decimal(n / 10));
        assert(b.drop_last() =~= prev);
        assert(b.last() == (0x30 + n % 10) as u8);
        assert(digits_value(b) == digits_value(prev) * 10 + (n % 10));
        assert((n / 10) * 10 + n % 10 == n);
        assert forall|i: int| 0 <= i < b.len() implies is_digit(#[trigger] b[i]) by {
            if i < prev.len() {
                assert(b[i] == prev[i]);
            }
        }
        assert forall|i: int| 0 <= i < decimal(n).len() implies '\0' <= #[trigger] decimal(n)[i] <= '\u{7f}' by {
            if i < decimal(n / 10).len() {
                assert(decimal(n)[i] == decimal(n / 10)[i]);
            }
        }
    }
}

/// The first `c` at or after `from` is at `k`.
proof fn lemma_find_first(s: Seq<u8>, from: int, k: int, c: u8)
    requires
        0 <= from <= k <= s.len(),
        forall|j: int| from <= j < k ==> s[j] != c,
        k < s.len() ==> s[k] == c,
    ensures
        find_from(s, from, c) == k,
    decreases k - from,
{
    if from < k {
        lemma_find_first(s, from + 1, k, c);
    }
}

/// A field written in decimal, followed by `sep` and more text, scans to its number.
proof fn lemma_scan_numeral(n: nat, sep: u8, tail: Seq<u8>)
    requires
        sep == 0x2e || sep == 0x2d,
    ensures
        ({
            let d = ascii_bytes(decimal(n));
            let s = d + seq![sep] + tail;
            &&& find_from(s, 0, sep) == d.len()
            &&& s.subrange(0, d.len() as int) =~= d
            &&& rest_of(s, d.len() + 1int) =~= tail
            &&& field_value(d, n) == Some(n)
        }),
{
    lemma_decimal_digits(n);
    let d = ascii_bytes(decimal(n));
    let s = d + seq![sep] + tail;
    assert forall|j: int| 0 <= j < d.len() implies s[j] != sep by {
        assert(s[j] == d[j]);
        assert(is_digit(d[j]));
    }
    lemma_find_first(s, 0, d.len() as int, sep);
}

/// A version's text is ASCII, so its bytes are its characters.
proof fn lemma_version_text_bytes(v: Version)
    ensures
        encode_utf8(version_text(v)) == ascii_bytes(decimal(v.year as nat)) + seq![0x2eu8] + (ascii_bytes(
            decimal(v.major as nat),
        ) + seq![0x2eu8] + (ascii_bytes(decimal(v.minor as nat)) + seq![0x2eu8] + ascii_bytes(
            decimal(v.patch as nat),
        ))),
{
    let dy = ascii_bytes(decimal(v.year as nat));
    let da = ascii_bytes(decimal(v.major as nat));
    let di = ascii_bytes(decimal(v.minor as nat));
    let dp = ascii_bytes(decimal(v.patch as nat));
    let dot = seq![0x2eu8];
    lemma_decimal_digits(v.year as nat);
    lemma_decimal_digits(v.major as nat);
    lemma_decimal_digits(v.minor as nat);
    lemma_decimal_digits(v.patch as nat);
    let t = version_text(v);
    let b = dy + dot + (da + dot + (di + dot + dp));
    assert(ascii_bytes(t) =~= b);
    assert(is_ascii_chars(t)) by {
        assert forall|i: int| 0 <= i < t.len() implies '\0' <= #[trigger] t[i] <= '\u{7f}' by {
            let ly = decimal(v.year as nat).len() as int;
            let la = decimal(v.major as nat).len() as int;
            let li = decimal(v.minor as nat).len() as int;
            if i < ly {
                assert(t[i] == decimal(v.year as nat)[i]);
            } else if i == ly {
            } else if i < ly + 1 + la {
                assert(t[i] == decimal(v.major as nat)[i - ly - 1]);
            } else if i == ly + 1 + la {
            } else if i < ly + 2 + la + li {
                assert(t[i] == decimal(v.minor as nat)[i - ly - la - 2]);
            } else if i == ly + 2 + la + li {
            } else {
                assert(t[i] == decimal(v.patch as nat)[i - ly - la - li - 3]);
            }
        }
    }
    is_ascii_chars_encode_utf8(t);
    assert(encode_utf8(t) =~= b);
}

/// A field's numeral followed by `.` and `rest` scans to the field.
proof fn lemma_scan_dotted_numeral(n: nat, max: nat, base: int, name: Seq<char>, next_name: Seq<char>, rest: Seq<u8>)
    requires
        n <= max,
    ensures
        ({
            let d = ascii_bytes(decimal(n));
            let b = d + seq![0x2eu8] + rest;
            &&& scan_dotted(b, base, max, name, next_name) == (Scan::Done { value: n, next: d.len() + 1int, offset: base + d.len() + 1 })
            &&& rest_of(b, d.len() + 1int) == rest
        }),
{
    lemma_scan_numeral(n, 0x2e, rest);
}

/// A version's text, followed by nothing or by `-` and more, scans back to
/// the version; the scan consumes the `-`, and the offset steps one past the text.
#[verifier::spinoff_prover]
pub proof fn lemma_scan_version_text(v: Version, tail: Seq<u8>)
    requires
        tail.len() > 0 ==> tail[0] == 0x2d,
    ensures
        ({
            let b = encode_utf8(version_text(v)) + tail;
            let n = encode_utf8(version_text(v)).len() + if tail.len() > 0 { 1int } else { 0int };
            scan_version(b, 0) == (Scan::Done { value: v, next: n, offset: encode_utf8(version_text(v)).len() + 1int })
        }),
{
    let dy = ascii_bytes(decimal(v.year as nat));
    let da = ascii_bytes(decimal(v.major as nat));
    let di = ascii_bytes(decimal(v.minor as nat));
    let dp = ascii_bytes(decimal(v.patch as nat));
    let dot = seq![0x2eu8];
    lemma_version_text_bytes(v);
    lemma_decimal_digits(v.patch as nat);
    let b = encode_utf8(version_text(v)) + tail;
    let b1 = da + dot + (di + dot + (dp + tail));
    let b2 = di + dot + (dp + tail);
    let b3 = dp + tail;
    assert(b =~= dy + dot + b1);
    assert(b1 =~= da + dot + b2);
    assert(b2 =~= di + dot + b3);
    let n1 = dy.len() + 1int;
    let n2 = da.len() + 1int;
    let n3 = di.len() + 1int;
    lemma_scan_dotted_numeral(v.year as nat, 0xffff_ffff, 0, "year"@, "major"@, b1);
    lemma_scan_dotted_numeral(v.major as nat, 0xff, n1, "major"@, "minor"@, b2);
    lemma_scan_dotted_numeral(v.minor as nat, 0xff, n1 + n2, "minor"@, "patch"@, b3);
    assert forall|j: int| 0 <= j < dp.len() implies b3[j] != 0x2d by {
        assert(b3[j] == dp[j]);
        assert(is_digit(dp[j]));
    }
    lemma_find_first(b3, 0, dp.len() as int, 0x2d);
    assert(b3.subrange(0, dp.len() as int) =~= dp);
    assert(field_value(dp, 0xffff) == Some(v.patch as nat));
    let n4 = dp.len() + if tail.len() > 0 { 1int } else { 0int };
    assert(scan_patch(b3, n1 + n2 + n3) == (Scan::Done { value: v.patch as nat, next: n4, offset: n1 + n2 + n3 + dp.len() + 1 }));
}

/// Formatting then parsing gives the version back.
pub proof fn lemma_parse_format(v: Version)
    ensures
        parse_version(encode_utf8(version_text(v))) == Ok::<Version, Fault>(v),
{
    let b = encode_utf8(version_text(v));
    lemma_scan_version_text(v, Seq::empty());
    assert(b + Seq::<u8>::empty() =~= b);
}

} // verus!
