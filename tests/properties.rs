use std::collections::hash_map::DefaultHasher;
use std::hash::{Hash, Hasher};
use std::str::FromStr;
use yearly_version::{
    Version, VersionComparator, VersionConstraint, VersionError, VersionRequire, VersionTag,
};

fn v(year: u32, major: u8, minor: u8, patch: u16) -> Version {
    Version::new(year, major, minor, patch)
}

fn constraint(
    comparator: VersionComparator,
    year: Option<u32>,
    major: Option<u8>,
    minor: Option<u8>,
    patch: Option<u16>,
) -> VersionConstraint {
    VersionConstraint { comparator, year, major, minor, patch }
}

fn hash_of<T: Hash>(t: &T) -> u64 {
    let mut h = DefaultHasher::new();
    t.hash(&mut h);
    h.finish()
}

#[test]
fn format_then_parse_gives_the_version_back() {
    for version in [
        v(0, 0, 0, 0),
        v(2024, 2, 29, 12),
        v(10, 200, 9, 1000),
        v(4294967295, 255, 255, 65535),
    ] {
        let text = version.to_string();
        assert_eq!(Version::parse(&text), Ok(version));
    }
    assert_eq!(v(2024, 2, 29, 12).to_string(), "2024.2.29.12");
    assert_eq!(v(0, 0, 0, 0).to_string(), "0.0.0.0");
    assert_eq!(Version::max_value().to_string(), "4294967295.255.255.65535");
}

#[test]
fn codec_packs_fields_and_decodes_back() {
    assert_eq!(u64::from(v(2024, 2, 29, 12)), (2024u64 << 32) | (2 << 24) | (29 << 16) | 12);
    assert_eq!(u64::from(v(2024, 2, 29, 12)), 8693049262092);
    assert_eq!(u64::from(v(0, 0, 1, 0)), 65536);
    assert_eq!(u64::from(v(0, 0, 255, 65535)), 16777215);
    assert_eq!(u64::from(v(0, 1, 0, 0)), 16777216);
    assert_eq!(u64::from(v(1, 0, 0, 0)), 4294967296);
    assert_eq!(u64::from(Version::max_value()), u64::MAX);
    assert_eq!(Version::from(16711680u64), v(0, 0, 255, 0));
    assert_eq!(Version::from(16777217u64), v(0, 1, 0, 1));
    assert_eq!(Version::from(4294967295u64), v(0, 255, 255, 65535));
    assert_eq!(Version::from(4294967297u64), v(1, 0, 0, 1));
    assert_eq!(Version::from(u64::MAX), Version::max_value());
    for version in [v(0, 0, 0, 0), v(7, 1, 2, 3), v(4294967295, 255, 255, 65535)] {
        assert_eq!(Version::from(u64::from(version)), version);
    }
}

#[test]
fn codec_preserves_order() {
    let ordered = [
        v(0, 0, 0, 0),
        v(0, 0, 0, 65535),
        v(0, 0, 1, 0),
        v(0, 255, 255, 65535),
        v(1, 0, 0, 0),
        v(1, 0, 0, 1),
        v(4294967295, 255, 255, 65535),
    ];
    for pair in ordered.windows(2) {
        assert!(pair[0] < pair[1]);
        assert!(u64::from(pair[0]) < u64::from(pair[1]));
    }
}

#[test]
fn order_is_lexicographic_and_total() {
    assert!(v(1, 0, 0, 0) > v(0, 255, 255, 65535));
    assert!(v(1, 2, 0, 0) > v(1, 1, 255, 65535));
    assert!(v(1, 2, 3, 0) > v(1, 2, 2, 65535));
    assert!(v(1, 2, 3, 5) > v(1, 2, 3, 4));
    assert_eq!(v(1, 2, 3, 4).partial_cmp(&v(1, 2, 3, 4)), Some(std::cmp::Ordering::Equal));
    let mut list = vec![v(2, 0, 0, 0), v(0, 0, 0, 1), v(1, 9, 0, 0), v(1, 0, 9, 0)];
    list.sort();
    assert_eq!(list, vec![v(0, 0, 0, 1), v(1, 0, 9, 0), v(1, 9, 0, 0), v(2, 0, 0, 0)]);
}

#[test]
fn tags_do_not_take_part_in_comparison() {
    let a = VersionTag::new(v(1, 2, 3, 4), "nightly".to_string());
    let b = VersionTag::new(v(1, 2, 3, 4), "beta".to_string());
    assert_eq!(a, b);
    assert_eq!(a.partial_cmp(&b), Some(std::cmp::Ordering::Equal));
    assert_eq!(hash_of(&a), hash_of(&b));
    let c = VersionTag::new(v(1, 2, 3, 5), "nightly".to_string());
    assert_ne!(a, c);
    assert!(a < c);
}

#[test]
fn tagged_version_text() {
    let t = VersionTag::from_str("1.2.3.4-nightly").unwrap();
    assert_eq!(t.number, v(1, 2, 3, 4));
    assert_eq!(t.tag, "nightly");
    assert_eq!(t.to_string(), "1.2.3.4-nightly");
    let plain = VersionTag::parse("1.2.3.4").unwrap();
    assert_eq!(plain.tag, "");
    assert_eq!(
        VersionTag::parse("1.2"),
        Err(VersionError::MissingPart { part: "minor".to_string(), offset: 2 })
    );
}

#[test]
fn parse_reports_extra_text() {
    assert_eq!(
        Version::parse("1.2.3.4-nightly"),
        Err(VersionError::ExtraPart { extra: "nightly".to_string(), offset: 8 })
    );
    assert_eq!(Version::parse("1.2.3.4-"), Ok(v(1, 2, 3, 4)));
    assert_eq!(
        Version::parse("+1.0.0.0"),
        Err(VersionError::InvalidPart { part: "year".to_string(), start: 0, end: 2 })
    );
    assert_eq!(
        Version::parse("1..0.0"),
        Err(VersionError::InvalidPart { part: "major".to_string(), start: 2, end: 2 })
    );
    assert_eq!(
        Version::parse("é.0.0.0"),
        Err(VersionError::InvalidPart { part: "year".to_string(), start: 0, end: 2 })
    );
    assert_eq!(Version::parse("007.0.0.0"), Ok(v(7, 0, 0, 0)));
}

#[test]
fn parse_advance_keeps_rest_and_offset() {
    let (version, rest, offset) = Version::parse_advance_version("1.2.3.4-rc; more", 5).unwrap();
    assert_eq!(version, v(1, 2, 3, 4));
    assert_eq!(rest, "rc; more");
    assert_eq!(offset, 13);
    let (version, rest, offset) = Version::parse_advance_version("1.2.3.4", 0).unwrap();
    assert_eq!((version, rest, offset), (v(1, 2, 3, 4), "", 8));
    assert_eq!(
        VersionRequire::parse("*1"),
        Err(VersionError::ExtraPart { extra: "1".to_string(), offset: 1 })
    );
    assert_eq!(Version::parse_advance_year("2024.1", 3), Ok((2024, "1", 8)));
    assert_eq!(Version::parse_advance_patch("17", 4), Ok((17, "", 7)));
    assert_eq!(Version::parse_advance_patch("5", 0), Ok((5, "", 2)));
    assert_eq!(Version::parse_advance_patch("5-x", 0), Ok((5, "x", 2)));
    assert_eq!(
        Version::parse_advance_major("300.1", 5),
        Err(VersionError::InvalidPart { part: "major".to_string(), start: 5, end: 8 })
    );
    assert_eq!(
        Version::parse_advance_minor("3", 5),
        Err(VersionError::MissingPart { part: "patch".to_string(), offset: 5 })
    );
}

#[test]
fn exact_constraint_admits_one_version() {
    let c = constraint(VersionComparator::Exact, Some(0), Some(1), Some(2), Some(3));
    assert_eq!(c.lower(), Some(v(0, 1, 2, 3)));
    assert_eq!(c.upper(), Some(v(0, 1, 2, 3)));
    let range = VersionComparator::Exact.range(Some(0), Some(1), Some(2), Some(3)).unwrap();
    assert_eq!(*range.start(), v(0, 1, 2, 3));
    assert_eq!(*range.end(), v(0, 1, 2, 3));
    assert!(c.matches(&v(0, 1, 2, 3)));
    assert!(!c.matches(&v(0, 1, 2, 4)));
}

#[test]
fn wildcard_widens_to_full_domain() {
    let c = constraint(VersionComparator::Wildcard, Some(0), Some(1), Some(2), None);
    assert_eq!(c.lower(), Some(v(0, 1, 2, 0)));
    assert_eq!(c.upper(), Some(v(0, 1, 2, 65535)));
    let all = constraint(VersionComparator::Wildcard, None, None, None, None);
    assert!(all.unlimited());
    assert!(!c.unlimited());
    assert_eq!(all.lower(), Some(Version::min_value()));
    assert_eq!(all.upper(), Some(Version::max_value()));
    let year = VersionComparator::Exact;
    assert_eq!(year.lower(Some(1), None, None, None), v(1, 0, 0, 0));
    assert_eq!(year.upper(Some(1), None, None, None), v(1, 255, 255, 65535));
}

#[test]
fn greater_carries_through_the_codec() {
    let c = constraint(VersionComparator::Greater, Some(0), Some(0), Some(0), Some(65535));
    assert_eq!(c.lower(), Some(v(0, 0, 1, 0)));
    assert_eq!(c.upper(), Some(Version::max_value()));
    let c = constraint(VersionComparator::Greater, Some(0), Some(2), Some(255), Some(65535));
    assert_eq!(c.lower(), Some(v(0, 3, 0, 0)));
    let c = constraint(VersionComparator::Greater, Some(1), Some(2), None, None);
    assert_eq!(c.lower(), Some(v(1, 3, 0, 0)));
    assert!(!c.matches(&v(1, 2, 255, 65535)));
    assert!(c.matches(&v(1, 3, 0, 0)));
}

#[test]
fn greater_than_the_largest_is_unsatisfiable() {
    let c = constraint(VersionComparator::Greater, Some(4294967295), Some(255), Some(255), Some(65535));
    assert_eq!(c.lower(), None);
    assert_eq!(c.upper(), None);
    let c = constraint(VersionComparator::Greater, Some(4294967295), None, None, None);
    assert_eq!(c.lower(), None);
    let c = constraint(VersionComparator::Greater, None, None, None, None);
    assert!(VersionComparator::Greater.range(c.year, c.major, c.minor, c.patch).is_none());
}

#[test]
fn less_than_the_smallest_is_unsatisfiable() {
    let c = constraint(VersionComparator::Less, Some(0), Some(0), Some(0), Some(0));
    assert_eq!(c.lower(), None);
    assert!(!c.matches(&Version::min_value()));
    let c = constraint(VersionComparator::Less, Some(1), Some(0), None, None);
    assert_eq!(c.lower(), Some(Version::min_value()));
    assert_eq!(c.upper(), Some(v(0, 255, 255, 65535)));
}

#[test]
fn greater_equal_and_less_equal_bounds() {
    let ge = constraint(VersionComparator::GreaterEqual, Some(1), Some(2), None, None);
    assert_eq!(ge.lower(), Some(v(1, 2, 0, 0)));
    assert_eq!(ge.upper(), Some(Version::max_value()));
    let le = constraint(VersionComparator::LessEqual, Some(1), Some(2), None, None);
    assert_eq!(le.lower(), Some(Version::min_value()));
    assert_eq!(le.upper(), Some(v(1, 2, 255, 65535)));
}

#[test]
fn tilde_and_caret_ranges() {
    let tilde = constraint(VersionComparator::Tilde, Some(1), Some(2), Some(3), Some(4));
    assert_eq!(tilde.lower(), Some(v(1, 2, 3, 4)));
    assert_eq!(tilde.upper(), Some(v(1, 2, 3, 65535)));
    let caret = constraint(VersionComparator::Caret, Some(1), Some(2), Some(3), Some(4));
    assert_eq!(caret.lower(), Some(v(1, 2, 3, 4)));
    assert_eq!(caret.upper(), Some(v(1, 2, 255, 65535)));
    let caret_year = constraint(VersionComparator::Caret, Some(1), None, None, None);
    assert_eq!(caret_year.upper(), Some(v(1, 255, 255, 65535)));
}

#[test]
fn require_is_an_intersection() {
    let require = VersionRequire::new(vec![
        constraint(VersionComparator::Greater, Some(1), Some(0), Some(0), Some(0)),
        constraint(VersionComparator::Less, Some(2), Some(0), Some(0), Some(0)),
    ]);
    assert!(require.matches(&v(1, 5, 0, 0)));
    assert!(!require.matches(&v(2, 0, 0, 0)));
    assert!(!require.matches(&v(1, 0, 0, 0)));
    let range = require.range().unwrap();
    assert_eq!(*range.start(), v(1, 0, 0, 1));
    assert_eq!(*range.end(), v(1, 255, 255, 65535));
    let disjoint = VersionRequire::new(vec![
        constraint(VersionComparator::Less, Some(1), None, None, None),
        constraint(VersionComparator::Greater, Some(2), None, None, None),
    ]);
    assert!(disjoint.range().is_none());
    assert!(disjoint.bounds().is_none());
    let empty = VersionRequire::new(vec![]);
    assert_eq!(empty.bounds(), Some((Version::min_value(), Version::max_value())));
    assert!(empty.matches(&v(3, 0, 0, 0)));
}

#[test]
fn parse_requirements() {
    let require = VersionRequire::from_str(">1.0; <2.0").unwrap();
    assert_eq!(
        require.constraints,
        vec![
            constraint(VersionComparator::Greater, Some(1), Some(0), None, None),
            constraint(VersionComparator::Less, Some(2), Some(0), None, None),
        ]
    );
    assert!(require.matches(&v(1, 5, 0, 0)));
    assert!(!require.matches(&v(2, 0, 0, 0)));
    let require = VersionRequire::parse("1.2.*").unwrap();
    assert_eq!(require.constraints, vec![constraint(VersionComparator::Wildcard, Some(1), Some(2), None, None)]);
    let require = VersionRequire::parse("*").unwrap();
    assert!(require.constraints[0].unlimited());
    let require = VersionRequire::parse(">=1.2.3.4;<=5;~6.1;^7;=8.0.1").unwrap();
    let comparators: Vec<VersionComparator> = require.constraints.iter().map(|c| c.comparator).collect();
    assert_eq!(
        comparators,
        vec![
            VersionComparator::GreaterEqual,
            VersionComparator::LessEqual,
            VersionComparator::Tilde,
            VersionComparator::Caret,
            VersionComparator::Exact,
        ]
    );
    assert_eq!(require.constraints[0].patch, Some(4));
}

#[test]
fn parse_requirement_errors() {
    assert_eq!(
        VersionRequire::parse("1.x"),
        Err(VersionError::InvalidPart { part: "major".to_string(), start: 2, end: 2 })
    );
    assert_eq!(
        VersionRequire::parse(">1.256"),
        Err(VersionError::InvalidPart { part: "major".to_string(), start: 3, end: 6 })
    );
    assert_eq!(
        VersionRequire::parse(">1.0 junk"),
        Err(VersionError::ExtraPart { extra: " junk".to_string(), offset: 4 })
    );
    assert_eq!(
        VersionRequire::parse(""),
        Err(VersionError::InvalidPart { part: "year".to_string(), start: 0, end: 0 })
    );
    let (c, rest, offset) = VersionComparator::parse_advance_version_comparator(">=1", 10).unwrap();
    assert_eq!((c, rest, offset), (VersionComparator::GreaterEqual, "1", 12));
    let (c, rest, offset) = VersionComparator::parse_advance_version_comparator("*", 3).unwrap();
    assert_eq!((c, rest, offset), (VersionComparator::Wildcard, "", 4));
    let (c, rest, offset) = VersionComparator::parse_advance_version_comparator("~1.2", 0).unwrap();
    assert_eq!((c, rest, offset), (VersionComparator::Tilde, "1.2", 1));
    let (c, rest, offset) = VersionComparator::parse_advance_version_comparator("1", 0).unwrap();
    assert_eq!((c, rest, offset), (VersionComparator::Wildcard, "1", 0));
    let (c, rest, offset) = VersionConstraint::parse_advance_version_constraint("<3.1;x", 0).unwrap();
    assert_eq!(c, constraint(VersionComparator::Less, Some(3), Some(1), None, None));
    assert_eq!((rest, offset), (";x", 4));
    let (r, rest, offset) = VersionRequire::parse_advance_version_request("=1; 2 !", 1).unwrap();
    assert_eq!(r.constraints.len(), 2);
    assert_eq!((rest, offset), (" !", 6));
}

#[test]
fn projects_to_semantic_versions() {
    assert_eq!(v(2024, 2, 29, 0).to_semver().to_string(), "2024.2.29");
    assert_eq!(v(2024, 2, 29, 12).to_semver().to_string(), "2024.2.29-pre.12");
    assert_eq!(v(1, 2, 3, 4).semver_prerelease(), Some("pre.4".to_string()));
    assert_eq!(v(1, 2, 3, 0).semver_prerelease(), None);
    let tagged = VersionTag::new(v(1, 2, 3, 4), "nightly.7".to_string());
    assert_eq!(tagged.to_semver().unwrap().to_string(), "1.2.3-pre.4+nightly.7");
    let bad = VersionTag::new(v(1, 2, 3, 4), "night ly".to_string());
    assert_eq!(
        bad.to_semver(),
        Err(VersionError::InvalidPart { part: "tag".to_string(), start: 0, end: 8 })
    );
    let trailing = VersionTag::new(v(1, 2, 3, 4), "a.".to_string());
    assert!(trailing.to_semver().is_err());
}

#[test]
fn constraint_and_require_text() {
    assert_eq!(VersionComparator::GreaterEqual.symbol(), ">=");
    assert_eq!(VersionComparator::Wildcard.to_string(), "*");
    assert_eq!(constraint(VersionComparator::Wildcard, Some(1), Some(2), None, None).to_string(), "1.2.*");
    assert_eq!(constraint(VersionComparator::Wildcard, None, None, None, None).to_string(), "*");
    assert_eq!(constraint(VersionComparator::Greater, Some(1), Some(0), None, None).to_string(), ">1.0");
    assert_eq!(constraint(VersionComparator::Caret, Some(1), Some(2), Some(3), Some(4)).to_string(), "^1.2.3.4");
    assert_eq!(constraint(VersionComparator::Less, None, None, None, None).to_string(), "<*");
    let require = VersionRequire::parse(">1.0;   <2.0").unwrap();
    assert_eq!(require.to_string(), ">1.0; <2.0");
    assert_eq!(VersionRequire::parse(&require.to_string()), Ok(require));
    assert_eq!(VersionRequire::default().to_string(), "");
    assert_eq!(Version::default(), Version::min_value());
    assert_eq!(VersionConstraint::default().to_string(), "*");
}

#[test]
fn tagged_text_round_trip() {
    let t = VersionTag::new(v(2024, 1, 0, 7), "nightly-2".to_string());
    let text = t.to_string();
    assert_eq!(text, "2024.1.0.7-nightly-2");
    let back = VersionTag::parse(&text).unwrap();
    assert_eq!(back.number, t.number);
    assert_eq!(back.tag, t.tag);
}

#[test]
fn requirement_text_round_trip() {
    let require = VersionRequire::new(vec![
        constraint(VersionComparator::GreaterEqual, Some(1), None, None, None),
        constraint(VersionComparator::Wildcard, Some(1), Some(4), None, None),
        constraint(VersionComparator::Tilde, Some(1), Some(4), Some(2), Some(9)),
        constraint(VersionComparator::Less, None, None, None, None),
    ]);
    let text = require.to_string();
    assert_eq!(text, ">=1; 1.4.*; ~1.4.2.9; <*");
    assert_eq!(VersionRequire::parse(&text), Ok(require));
}
