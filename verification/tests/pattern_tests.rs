use slicepat::{CaseInsensitive, ExactMatch, PathMatch, Pattern, PatternFlags};

const WILDCARD: &u8 = &b'*';

#[test]
fn pattern_parses() {
    assert_eq!(
        Pattern::parse(b"a*b", WILDCARD),
        Pattern::new(
            vec![b"a".to_vec(), b"b".to_vec()],
            PatternFlags::empty().with_end_anchored(),
        ),
    );
    assert_eq!(
        Pattern::parse(b"*a*b", WILDCARD),
        Pattern::new(
            vec![b"a".to_vec(), b"b".to_vec()],
            PatternFlags::empty().with_start_unanchored().with_end_anchored(),
        ),
    );
    assert_eq!(
        Pattern::parse(b"*.Nav", WILDCARD),
        Pattern::new(
            vec![b".Nav".to_vec()],
            PatternFlags::empty().with_start_unanchored().with_end_anchored(),
        ),
    );
}

#[test]
fn pattern_matches() {
    let pattern = Pattern::parse(b"*.nav", WILDCARD);
    assert_eq!(pattern.first_match(PathMatch, b"DM_FLOOD.NAV"), Some(b"".as_ref()));
    assert_eq!(pattern.first_match(PathMatch, b"dm_flood.Nav"), Some(b"".as_ref()));
    assert_eq!(pattern.first_match(PathMatch, b"dm_flood.nav\t"), None);
    let pattern = Pattern::parse(b"*.nav*", WILDCARD);
    assert_eq!(pattern.first_match(PathMatch, b"cp_dustbowl.nav  "), Some(b"  ".as_ref()));
}

#[test]
fn template_with_directory_prefix() {
    let pattern = Pattern::parse(b"maps/*.nav", WILDCARD);
    assert_eq!(pattern.first_match(PathMatch, b"Maps/DM_FLOOD.NAV"), Some(b"".as_ref()));
    assert_eq!(pattern.first_match(PathMatch, b"maps/cp_dustbowl.bsp"), None);
    assert_eq!(pattern.first_match(PathMatch, b"maps/"), None);
}

#[test]
fn parse_edge_templates() {
    // empty template: no pieces, start anchored, end anchored
    let p = Pattern::parse(b"", WILDCARD);
    assert_eq!(p, Pattern::new(vec![], PatternFlags::empty().with_end_anchored()));
    // a lone wildcard: no pieces, start unanchored, end unanchored
    let p = Pattern::parse(b"*", WILDCARD);
    assert_eq!(p, Pattern::new(vec![], PatternFlags::empty().with_start_unanchored()));
    // doubled wildcards never materialize empty pieces
    let p = Pattern::parse(b"a**b", WILDCARD);
    assert_eq!(
        p,
        Pattern::new(
            vec![b"a".to_vec(), b"b".to_vec()],
            PatternFlags::empty().with_end_anchored(),
        ),
    );
    let p = Pattern::parse(b"a*", WILDCARD);
    assert_eq!(p, Pattern::new(vec![b"a".to_vec()], PatternFlags::empty()));
}

#[test]
fn lone_wildcard_matches_everything() {
    let p = Pattern::parse(b"*", WILDCARD);
    assert_eq!(p.first_match(PathMatch, b"anything at all"), Some(b"anything at all".as_ref()));
    assert_eq!(p.first_match(PathMatch, b""), Some(b"".as_ref()));
    // while the empty template matches only the empty haystack
    let p = Pattern::parse(b"", WILDCARD);
    assert_eq!(p.first_match(PathMatch, b""), Some(b"".as_ref()));
    assert_eq!(p.first_match(PathMatch, b"x"), None);
}

#[test]
fn flags_are_independent() {
    let f = PatternFlags::empty();
    assert!(!f.is_start_unanchored());
    assert!(!f.is_end_anchored());
    let f = f.with_start_unanchored();
    assert!(f.is_start_unanchored());
    assert!(!f.is_end_anchored());
    let f = f.with_end_anchored();
    assert!(f.is_start_unanchored());
    assert!(f.is_end_anchored());
    let g = PatternFlags::empty().with_end_anchored();
    assert!(!g.is_start_unanchored());
    assert!(g.is_end_anchored());
}

#[test]
fn literal_template_exact_semantics() {
    // no wildcard in the template: an exact-strategy match is equality
    let p = Pattern::parse(b"one", WILDCARD);
    assert_eq!(p.first_match(ExactMatch, b"one"), Some(b"".as_ref()));
    assert_eq!(p.first_match(ExactMatch, b"One"), None);
    assert_eq!(p.first_match(ExactMatch, b"one "), None);
    assert_eq!(p.first_match(ExactMatch, b"on"), None);
    // under the case-insensitive strategy it is ASCII-case-equality
    assert_eq!(p.first_match(CaseInsensitive, b"ONE"), Some(b"".as_ref()));
    assert_eq!(p.first_match(CaseInsensitive, b"ONE "), None);
}
