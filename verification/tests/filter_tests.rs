use slicepat::{classify_line, Directive, Pattern, PatternMap};

fn parse(template: &[u8]) -> Pattern {
    Pattern::parse(template, &b'*')
}

#[test]
fn classify_lines() {
    assert_eq!(classify_line(b""), None);
    assert_eq!(classify_line(b"   \t  "), None);
    assert_eq!(classify_line(b"# a comment"), None);
    assert_eq!(classify_line(b"   # indented comment\n"), None);
    assert_eq!(classify_line(b"maps/*.nav"), Some((b"maps/*.nav".to_vec(), Directive::Include)));
    assert_eq!(classify_line(b"  maps/*.nav \n"), Some((b"maps/*.nav".to_vec(), Directive::Include)));
    assert_eq!(classify_line(b"!keep/*.bsp"), Some((b"keep/*.bsp".to_vec(), Directive::Exclude)));
    // a leading backslash escapes a literal `#` or `!`
    assert_eq!(classify_line(b"\\#literal"), Some((b"#literal".to_vec(), Directive::Include)));
    assert_eq!(classify_line(b"\\!literal"), Some((b"!literal".to_vec(), Directive::Include)));
}

#[test]
fn table_semantics() {
    let mut map = PatternMap::new();
    // nothing stored: nothing is excluded
    assert!(!map.has_match(b"maps/dm_flood.nav"));
    map.insert(parse(b"maps/*.nav"), Directive::Include);
    assert!(map.has_match(b"maps/dm_flood.nav"));
    assert!(map.has_match(b"MAPS\\DM_FLOOD.NAV"));
    assert!(!map.has_match(b"maps/dm_flood.bsp"));
    // a matching exclude overrides any number of matching inclusions
    map.insert(parse(b"maps/dm_*"), Directive::Exclude);
    assert!(!map.has_match(b"maps/dm_flood.nav"));
    assert!(map.has_match(b"maps/cp_dustbowl.nav"));
}

#[test]
fn exclude_wins_in_any_order() {
    let mut a = PatternMap::new();
    a.insert(parse(b"*.nav"), Directive::Include);
    a.insert(parse(b"maps/*"), Directive::Exclude);
    let mut b = PatternMap::new();
    b.insert(parse(b"maps/*"), Directive::Exclude);
    b.insert(parse(b"*.nav"), Directive::Include);
    for haystack in [
        b"maps/dm_flood.nav".as_ref(),
        b"other/dm_flood.nav",
        b"maps/readme.txt",
        b"readme.txt",
    ] {
        assert_eq!(a.has_match(haystack), b.has_match(haystack));
    }
    assert!(!a.has_match(b"maps/dm_flood.nav"));
    assert!(a.has_match(b"other/dm_flood.nav"));
    assert!(!a.has_match(b"readme.txt"));
}

#[test]
fn insert_replaces_equal_pattern() {
    let mut map = PatternMap::new();
    map.insert(parse(b"*.nav"), Directive::Include);
    assert!(map.has_match(b"x.nav"));
    // the same pattern again: the directive is replaced, not duplicated
    map.insert(parse(b"*.nav"), Directive::Exclude);
    assert!(!map.has_match(b"x.nav"));
    assert_eq!(map.0.len(), 1);
    map.insert(parse(b"*.nav"), Directive::Include);
    assert!(map.has_match(b"x.nav"));
    assert_eq!(map.0.len(), 1);
}

#[test]
fn ignore_specification_end_to_end() {
    let spec_text: &[&[u8]] = &[
        b"# compiled maps are mirrored",
        b"",
        b"maps/*.bsp",
        b"maps/*.nav",
        b"!maps/dm_secret*",
        b"   ",
        b"\\#hash.bsp",
    ];
    let mut map = PatternMap::new();
    for line in spec_text {
        if let Some((text, directive)) = classify_line(line) {
            map.insert(Pattern::parse(&text, &b'*'), directive);
        }
    }
    assert!(map.has_match(b"maps/cp_dustbowl.bsp"));
    assert!(map.has_match(b"maps/dm_flood.nav"));
    assert!(!map.has_match(b"maps/dm_secret.bsp"));
    assert!(!map.has_match(b"sound/hit.wav"));
    assert!(map.has_match(b"#hash.bsp"));
}
