use slicepat::u8_buf::U8Pieces;
use slicepat::{ExactMatch, PathMatch, Pattern, Pieces};

#[test]
fn iter_buf_pieces() {
    let pieces_array = vec![b"one".to_vec(), b"tour".to_vec()];
    let pieces = U8Pieces::from_pieces(&pieces_array);
    let mut it = pieces.pieces();
    let mut count = 0;
    while it.next().is_some() {
        count += 1;
    }
    assert_eq!(count, pieces_array.len());
    let mut it = pieces.pieces();
    assert_eq!(it.next(), Some(b"one".as_ref()));
    assert_eq!(it.next(), Some(b"tour".as_ref()));
    assert_eq!(it.next(), None);
}

#[test]
fn round_trip_preserves_pieces() {
    let mut packed = U8Pieces::new();
    packed.push(b"alpha");
    packed.push(b"");
    packed.push(b"b");
    packed.push(b"gamma delta");
    let mut it = packed.pieces();
    assert_eq!(it.next(), Some(b"alpha".as_ref()));
    assert_eq!(it.next(), Some(b"b".as_ref()));
    assert_eq!(it.next(), Some(b"gamma delta".as_ref()));
    assert_eq!(it.next(), None);
}

#[test]
fn empty_buffer_yields_nothing() {
    let packed = U8Pieces::new();
    let mut it = packed.pieces();
    assert_eq!(it.next(), None);
    let packed = U8Pieces::with_capacity(64);
    let mut it = packed.pieces();
    assert_eq!(it.next(), None);
}

#[test]
fn packed_equality_is_piece_equality() {
    let a = U8Pieces::from_pieces(&vec![b"one".to_vec(), b"tour".to_vec()]);
    let mut b = U8Pieces::new();
    b.push(b"one");
    b.push(b"");
    b.push(b"tour");
    // empty pieces are never written, so the encodings coincide
    assert!(a == b);
    let c = U8Pieces::from_pieces(&vec![b"one".to_vec()]);
    assert!(a != c);
    let d = U8Pieces::from_pieces(&vec![b"onetour".to_vec()]);
    // same bytes overall, but the piece boundaries differ
    assert!(a != d);
}

#[test]
fn packed_pieces_drive_matching() {
    let packed = U8Pieces::from_pieces(&vec![b"no".to_vec(), b"ze".to_vec()]);
    assert_eq!(packed.piece_count(), 2);
    assert_eq!(packed.piece_at(0), b"no");
    assert_eq!(packed.piece_at(1), b"ze");
    assert_eq!(slicepat::matches(&packed, ExactMatch, b"noize"), Some(b"".as_ref()));
    assert_eq!(slicepat::matches(&packed, ExactMatch, b" noize"), None);
    assert_eq!(slicepat::suffix_matches(&packed, ExactMatch, b"xxnoize!"), Some(b"!".as_ref()));
}

#[test]
fn packed_backed_pattern() {
    // a parsed pattern re-homed into a packed piece buffer matches the same
    let parsed = Pattern::parse(b"maps/*.nav", &b'*');
    let packed = Pattern::new(U8Pieces::from_pieces(&parsed.pieces), parsed.flags);
    assert_eq!(packed.first_match(PathMatch, b"Maps/DM_FLOOD.NAV"), Some(b"".as_ref()));
    assert_eq!(packed.first_match(PathMatch, b"maps/x.bsp"), None);
    assert_eq!(packed.first_match(PathMatch, b"maps/"), None);
}

#[test]
fn capacity_and_reserve() {
    let mut packed = U8Pieces::with_capacity(128);
    assert!(packed.capacity() >= 128);
    packed.push(b"abc");
    packed.reserve(256);
    assert!(packed.capacity() >= 8 + 3 + 256);
    let mut it = packed.pieces();
    assert_eq!(it.next(), Some(b"abc".as_ref()));
    assert_eq!(it.next(), None);
}
