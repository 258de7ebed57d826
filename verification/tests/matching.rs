use slicepat::{suffix_matches, CaseInsensitive, ExactMatch, Matcher, PathMatch};

#[test]
fn empty_pattern() {
    let empty: Vec<Vec<u8>> = vec![];
    assert_eq!(slicepat::matches(&empty, ExactMatch, b"oneshor"), None);
    assert_eq!(suffix_matches(&empty, ExactMatch, b"oneshor"), Some(b"oneshor".as_ref()));
}

#[test]
fn exact_match() {
    {
        let pattern = vec![b"one".to_vec()];
        assert_eq!(slicepat::matches(&pattern, ExactMatch, b"oneshor "), Some(b"shor ".as_ref()));
        assert_eq!(slicepat::matches(&pattern, ExactMatch, b"onetour"), Some(b"tour".as_ref()));
        assert_eq!(slicepat::matches(&pattern, ExactMatch, b"one"), Some(b"".as_ref()));
    }
    {
        let pattern = vec![b"no".to_vec(), b"ze".to_vec()];
        assert_eq!(slicepat::matches(&pattern, ExactMatch, b"noize"), Some(b"".as_ref()));
        assert_eq!(slicepat::matches(&pattern, ExactMatch, b"noze"), Some(b"".as_ref()));
        assert_eq!(slicepat::matches(&pattern, ExactMatch, b" noize"), None);
        assert_eq!(slicepat::matches(&pattern, ExactMatch, b"no"), None);
        assert_eq!(slicepat::matches(&pattern, ExactMatch, b"ze"), None);
        assert_eq!(slicepat::matches(&pattern, ExactMatch, b"noize "), Some(b" ".as_ref()));
    }
}

#[test]
fn case_insensitive_match() {
    let pattern = vec![b"NOIZE".to_vec()];
    assert_eq!(slicepat::matches(&pattern, CaseInsensitive, b"Noize "), Some(b" ".as_ref()));
    assert_eq!(slicepat::matches(&pattern, CaseInsensitive, b"noIZE"), Some(b"".as_ref()));
    let pattern = vec![b".nav".to_vec()];
    assert_eq!(suffix_matches(&pattern, CaseInsensitive, b"cp_dustbowl.nav"), Some(b"".as_ref()));
    assert_eq!(suffix_matches(&pattern, CaseInsensitive, b"DM_FLOOD.NAV"), Some(b"".as_ref()));
}

#[test]
fn path_match() {
    let pattern = vec![b"maps/".to_vec(), b".nav".to_vec()];
    assert_eq!(slicepat::matches(&pattern, PathMatch, b"maps/"), None);
    assert_eq!(slicepat::matches(&pattern, PathMatch, b"Maps/DM_FLOOD.NAV"), Some(b"".as_ref()));
    assert_eq!(slicepat::matches(&pattern, PathMatch, b"maps/cp_dustbowl.nav"), Some(b"".as_ref()));
    assert_eq!(slicepat::matches(&pattern, PathMatch, b"maps/cp_dustbowl.bsp"), None);
}

#[test]
fn strategies_on_windows() {
    assert!(ExactMatch.is_equal(b"abc", b"abc"));
    assert!(!ExactMatch.is_equal(b"abc", b"abd"));
    assert!(!ExactMatch.is_equal(b"abc", b"ab"));
    assert!(CaseInsensitive.is_equal(b"AbC", b"aBc"));
    assert!(!CaseInsensitive.is_equal(b"abc", b"abd"));
    assert!(!CaseInsensitive.is_equal(b"abc", b"ab"));
    // non-ASCII bytes compare literally under case folding
    assert!(CaseInsensitive.is_equal(&[0xC4, b'a'], &[0xC4, b'A']));
    assert!(!CaseInsensitive.is_equal(&[0xC4], &[0xE4]));
    assert!(PathMatch.is_equal(b"a/B", b"A\\b"));
    assert!(PathMatch.is_equal(b"a\\B", b"A/b"));
    assert!(!PathMatch.is_equal(b"a/b", b"a.b"));
    assert!(!PathMatch.is_equal(b"a/b", b"a/"));
}

#[test]
fn leftmost_window_wins() {
    // "ab" first occurs at offset 1; everything after that window remains
    let pattern = vec![b"ab".to_vec()];
    assert_eq!(suffix_matches(&pattern, ExactMatch, b"xabab"), Some(b"ab".as_ref()));
    // non-backtracking: the first piece consumes the first window even
    // though a later alignment would let the second piece match too
    let pattern = vec![b"ab".to_vec(), b"cd".to_vec()];
    assert_eq!(suffix_matches(&pattern, ExactMatch, b"abxabcd"), Some(b"".as_ref()));
    assert_eq!(suffix_matches(&pattern, ExactMatch, b"cdab"), None);
}
