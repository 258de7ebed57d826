//! Wildcard pattern matching over byte slices.
//!
//! A pattern is an ordered sequence of literal pieces together with two
//! anchoring flags, obtained by splitting a template on a caller-chosen
//! wildcard element. Matching is non-backtracking and leftmost-greedy per
//! piece, with pluggable element-equivalence strategies. A packed owned
//! encoding stores piece sequences compactly.

use vstd::prelude::*;

mod filter;
mod matcher;
mod model;
mod pattern;
mod state_line;
pub mod u8_buf;

pub use matcher::{CaseInsensitive, ExactMatch, Matcher, PathMatch};
pub use matcher::{case_eq, fold_byte, path_byte_eq, path_eq};
pub use model::{find_first, opt_view, pattern_match, piece_views, pieces_occur, prefix_match,
    scan_match};
pub use model::{lemma_empty_pieces, lemma_find_first, lemma_first_match_occurrences,
    lemma_prefix_match_occurs, lemma_scan_match_occurs};
pub use pattern::{Pattern, PatternFlags, Pieces};
pub use pattern::{lemma_literal_template_case_insensitive, lemma_literal_template_exact,
    lemma_literal_template_match, lemma_literal_template_path, split_pieces, split_raw,
    template_end_anchored, template_start_unanchored};
pub use filter::{classify_line, classify_spec, entry_matches, pattern_key, stored_key, trim,
    Directive, PatternMap};
pub use matcher::eq_bytes;
pub use state_line::{find_comma, format_line, hex_digits, hex_padded, hex_value, is_hex_digit,
    lemma_state_line_round_trip, parse_line, time_digits, valid_time, StateLineError};

verus! {

/// Anchored-prefix matching of `pattern`'s pieces against `haystack`: the
/// first piece must match at offset 0; the rest are scanned left to right.
/// Returns the unconsumed suffix on success.
pub fn matches<'a, P: Pieces, M: Matcher>(pattern: &P, matcher: M, haystack: &'a [u8]) -> (r:
    Option<&'a [u8]>)
    requires
        pattern.pieces_inv(),
    ensures
        opt_view(r) == prefix_match(matcher, pattern.pieces_view(), haystack@),
{
    matches_impl(pattern, &matcher, haystack)
}

/// Leftmost-piece-scan matching of `pattern`'s pieces against `haystack`:
/// each non-empty piece takes the lowest-offset equivalent window, in order.
/// Returns the unconsumed suffix on success.
pub fn suffix_matches<'a, P: Pieces, M: Matcher>(
    pattern: &P,
    matcher: M,
    haystack: &'a [u8],
) -> (r: Option<&'a [u8]>)
    requires
        pattern.pieces_inv(),
    ensures
        opt_view(r) == scan_match(matcher, pattern.pieces_view(), haystack@),
{
    suffix_matches_impl(pattern, &matcher, haystack)
}

pub(crate) fn matches_impl<'a, P: Pieces, M: Matcher>(
    pattern: &P,
    matcher: &M,
    haystack: &'a [u8],
) -> (r: Option<&'a [u8]>)
    requires
        pattern.pieces_inv(),
    ensures
        opt_view(r) == prefix_match(*matcher, pattern.pieces_view(), haystack@),
{
    if pattern.piece_count() == 0 {
        if haystack.len() == 0 {
            Some(haystack)
        } else {
            None
        }
    } else {
        let first = pattern.piece_at(0);
        let flen = first.len();
        if flen > haystack.len() {
            None
        } else {
            let window = vstd::slice::slice_subrange(haystack, 0, flen);
            if matcher.is_equal(first, window) {
                suffix_scan(pattern, 1, matcher, haystack, flen)
            } else {
                None
            }
        }
    }
}

pub(crate) fn suffix_matches_impl<'a, P: Pieces, M: Matcher>(
    pattern: &P,
    matcher: &M,
    haystack: &'a [u8],
) -> (r: Option<&'a [u8]>)
    requires
        pattern.pieces_inv(),
    ensures
        opt_view(r) == scan_match(*matcher, pattern.pieces_view(), haystack@),
{
    proof {
        assert(pattern.pieces_view().skip(0) =~= pattern.pieces_view());
        assert(haystack@.skip(0) =~= haystack@);
    }
    suffix_scan(pattern, 0, matcher, haystack, 0)
}

/// The scanning loop shared by both procedures, over the pieces from `start`
/// on and the haystack from `hstart` on.
fn suffix_scan<'a, P: Pieces, M: Matcher>(
    pattern: &P,
    start: usize,
    matcher: &M,
    haystack: &'a [u8],
    hstart: usize,
) -> (r: Option<&'a [u8]>)
    requires
        pattern.pieces_inv(),
        start <= pattern.pieces_view().len(),
        hstart <= haystack@.len(),
    ensures
        opt_view(r) == scan_match(
            *matcher,
            pattern.pieces_view().skip(start as int),
            haystack@.skip(hstart as int),
        ),
{
    let ghost views = pattern.pieces_view();
    let ghost goal = scan_match(*matcher, views.skip(start as int), haystack@.skip(hstart as int));
    let hlen = haystack.len();
    let count = pattern.piece_count();
    let mut i = start;
    let mut hpos = hstart;
    while i < count
        invariant
            pattern.pieces_inv(),
            count == views.len(),
            start <= i <= views.len(),
            hstart <= hpos <= haystack@.len(),
            hlen == haystack@.len(),
            views == pattern.pieces_view(),
            goal == scan_match(*matcher, views.skip(i as int), haystack@.skip(hpos as int)),
            goal == scan_match(
                *matcher,
                views.skip(start as int),
                haystack@.skip(hstart as int),
            ),
        decreases views.len() - i,
    {
        let piece = pattern.piece_at(i);
        let plen = piece.len();
        if plen > 0 {
            let ghost ph = haystack@.skip(hpos as int);
            proof {
                lemma_find_first(*matcher, piece@, ph);
                assert forall|j: int| 0 <= j && j + plen <= ph.len() implies #[trigger] ph.subrange(
                    j,
                    j + plen,
                ) == haystack@.subrange(hpos + j, hpos + j + plen) by {
                    assert(ph.subrange(j, j + plen) =~= haystack@.subrange(
                        hpos + j,
                        hpos + j + plen,
                    ));
                }
            }
            match find_window(piece, matcher, haystack, hpos) {
                Some(k) => {
                    proof {
                        let rel = k - hpos;
                        assert(ph.subrange(rel, rel + plen) == haystack@.subrange(
                            k as int,
                            k + plen,
                        ));
                        assert(matcher.equiv(piece@, ph.subrange(rel, rel + plen)));
                        assert forall|j: int| 0 <= j < rel implies !matcher.equiv(
                            piece@,
                            #[trigger] ph.subrange(j, j + plen),
                        ) by {
                            assert(ph.subrange(j, j + plen) == haystack@.subrange(
                                hpos + j,
                                hpos + j + plen,
                            ));
                        }
                        // the characterization pins find_first to exactly `rel`
                        match find_first(*matcher, piece@, ph) {
                            Some(ff) => {
                                if ff < rel {
                                    assert(!matcher.equiv(piece@, ph.subrange(ff, ff + plen)));
                                } else if ff > rel {
                                    assert(!matcher.equiv(piece@, ph.subrange(rel, rel + plen)));
                                }
                                assert(ff == rel);
                            },
                            None => {
                                assert(!matcher.equiv(piece@, ph.subrange(rel, rel + plen)));
                            },
                        }
                        assert(find_first(*matcher, piece@, ph) == Some(rel));
                        assert(views.skip(i as int).skip(1) =~= views.skip(i + 1));
                        assert(ph.skip(rel + plen) =~= haystack@.skip(k + plen));
                        assert(scan_match(*matcher, views.skip(i as int), ph) == scan_match(
                            *matcher,
                            views.skip(i + 1),
                            haystack@.skip(k + plen),
                        ));
                    }
                    hpos = k + plen;
                },
                None => {
                    proof {
                        match find_first(*matcher, piece@, ph) {
                            Some(ff) => {
                                assert(ph.subrange(ff, ff + plen) == haystack@.subrange(
                                    hpos + ff,
                                    hpos + ff + plen,
                                ));
                                assert(!matcher.equiv(piece@, ph.subrange(ff, ff + plen)));
                            },
                            None => {},
                        }
                        assert(find_first(*matcher, piece@, ph) is None);
                        assert(scan_match(*matcher, views.skip(i as int), ph) is None);
                    }
                    return None;
                },
            }
        } else {
            proof {
                assert(views[i as int] == piece@);
                assert(views.skip(i as int).skip(1) =~= views.skip(i + 1));
            }
        }
        i += 1;
    }
    proof {
        assert(views.skip(i as int) =~= Seq::<Seq<u8>>::empty());
    }
    Some(vstd::slice::slice_subrange(haystack, hpos, haystack.len()))
}

/// The lowest offset `k >= from` at which the window of `haystack` of the
/// piece's length is equivalent to `piece`, if any.
fn find_window<M: Matcher>(piece: &[u8], matcher: &M, haystack: &[u8], from: usize) -> (r: Option<
    usize,
>)
    requires
        from <= haystack@.len(),
        piece@.len() > 0,
    ensures
        match r {
            Some(k) => from <= k && k + piece@.len() <= haystack@.len() && matcher.equiv(
                piece@,
                haystack@.subrange(k as int, k + piece@.len() as int),
            ) && (forall|j: int|
                from <= j < k ==> !matcher.equiv(
                    piece@,
                    #[trigger] haystack@.subrange(j, j + piece@.len() as int),
                )),
            None => forall|j: int|
                from <= j && j + piece@.len() <= haystack@.len() ==> !matcher.equiv(
                    piece@,
                    #[trigger] haystack@.subrange(j, j + piece@.len() as int),
                ),
        },
{
    let plen = piece.len();
    let mut k = from;
    while k <= haystack.len() && haystack.len() - k >= plen
        invariant
            from <= k <= haystack@.len() + 1,
            plen == piece@.len(),
            plen >= 1,
            from <= haystack@.len(),
            forall|j: int|
                from <= j < k ==> !matcher.equiv(
                    piece@,
                    #[trigger] haystack@.subrange(j, j + piece@.len() as int),
                ),
        decreases haystack@.len() + 1 - k,
    {
        let window = vstd::slice::slice_subrange(haystack, k, k + plen);
        if matcher.is_equal(piece, window) {
            return Some(k);
        }
        k += 1;
    }
    None
}

} // verus!
