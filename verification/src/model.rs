//! The mathematical model of matching: what the anchored-prefix and
//! leftmost-piece-scan procedures return, and what a successful match
//! implies about the haystack.

use vstd::prelude::*;

use crate::matcher::Matcher;

verus! {

/// The pieces of a pattern, as abstract byte sequences.
pub open spec fn piece_views(pieces: Seq<Vec<u8>>) -> Seq<Seq<u8>> {
    pieces.map_values(|p: Vec<u8>| p@)
}

/// The remainder that an optional suffix stands for.
pub open spec fn opt_view(r: Option<&[u8]>) -> Option<Seq<u8>> {
    match r {
        Some(s) => Some(s@),
        None => None,
    }
}

/// The smallest offset at which a window of `h` of `p`'s length is
/// equivalent to `p` under `m`, if any window is.
pub open spec fn find_first<M: Matcher>(m: M, p: Seq<u8>, h: Seq<u8>) -> Option<int>
    decreases h.len(),
{
    if p.len() > h.len() {
        None
    } else if m.equiv(p, h.subrange(0, p.len() as int)) {
        Some(0)
    } else if h.len() == 0 {
        None
    } else {
        match find_first(m, p, h.skip(1)) {
            Some(i) => Some(i + 1),
            None => None,
        }
    }
}

/// Leftmost-piece-scan matching: each non-empty piece in order takes the
/// lowest-offset equivalent window of the haystack, which then advances past
/// that window; an empty piece sequence succeeds with the haystack unchanged.
pub open spec fn scan_match<M: Matcher>(m: M, pieces: Seq<Seq<u8>>, h: Seq<u8>) -> Option<Seq<u8>>
    decreases pieces.len(),
{
    if pieces.len() == 0 {
        Some(h)
    } else if pieces[0].len() == 0 {
        scan_match(m, pieces.skip(1), h)
    } else {
        match find_first(m, pieces[0], h) {
            Some(i) => scan_match(m, pieces.skip(1), h.skip(i + pieces[0].len())),
            None => None,
        }
    }
}

/// Anchored-prefix matching: the first piece must match at offset 0 exactly,
/// then the remaining pieces are scanned; an empty piece sequence succeeds
/// only on an empty haystack.
pub open spec fn prefix_match<M: Matcher>(m: M, pieces: Seq<Seq<u8>>, h: Seq<u8>) -> Option<
    Seq<u8>,
>
{
    if pieces.len() == 0 {
        if h.len() == 0 {
            Some(h)
        } else {
            None
        }
    } else if pieces[0].len() > h.len() {
        None
    } else if m.equiv(pieces[0], h.subrange(0, pieces[0].len() as int)) {
        scan_match(m, pieces.skip(1), h.skip(pieces[0].len() as int))
    } else {
        None
    }
}

/// Top-level pattern evaluation: scan when the start is unanchored, anchored
/// prefix otherwise; an anchored end additionally demands an empty remainder.
pub open spec fn pattern_match<M: Matcher>(
    m: M,
    start_unanchored: bool,
    end_anchored: bool,
    pieces: Seq<Seq<u8>>,
    h: Seq<u8>,
) -> Option<Seq<u8>> {
    let rest = if start_unanchored {
        scan_match(m, pieces, h)
    } else {
        prefix_match(m, pieces, h)
    };
    match rest {
        Some(r) => if !end_anchored || r.len() == 0 {
            Some(r)
        } else {
            None
        },
        None => None,
    }
}

/// `find_first` indeed names the least equivalent window: when it returns an
/// offset, that window is equivalent and every lower one is not; when it
/// returns nothing, no window is equivalent.
pub proof fn lemma_find_first<M: Matcher>(m: M, p: Seq<u8>, h: Seq<u8>)
    ensures
        match find_first(m, p, h) {
            Some(i) => 0 <= i && i + p.len() <= h.len() && m.equiv(
                p,
                h.subrange(i, i + p.len() as int),
            ) && (forall|j: int|
                0 <= j < i ==> !m.equiv(p, #[trigger] h.subrange(j, j + p.len() as int))),
            None => forall|j: int|
                0 <= j && j + p.len() <= h.len() ==> !m.equiv(
                    p,
                    #[trigger] h.subrange(j, j + p.len() as int),
                ),
        },
    decreases h.len(),
{
    if p.len() > h.len() {
    } else if m.equiv(p, h.subrange(0, p.len() as int)) {
    } else if h.len() == 0 {
    } else {
        lemma_find_first(m, p, h.skip(1));
        assert forall|j: int| 0 <= j && j + p.len() <= h.len() - 1 implies #[trigger] h.skip(
            1,
        ).subrange(j, j + p.len() as int) == h.subrange(j + 1, j + 1 + p.len() as int) by {
            assert(h.skip(1).subrange(j, j + p.len() as int) =~= h.subrange(
                j + 1,
                j + 1 + p.len() as int,
            ));
        }
        match find_first(m, p, h.skip(1)) {
            Some(i) => {
                assert forall|j: int| 0 <= j < i + 1 implies !m.equiv(
                    p,
                    #[trigger] h.subrange(j, j + p.len() as int),
                ) by {
                    if j > 0 {
                        assert(!m.equiv(p, h.skip(1).subrange(j - 1, j - 1 + p.len() as int)));
                    }
                }
            },
            None => {
                assert forall|j: int| 0 <= j && j + p.len() <= h.len() implies !m.equiv(
                    p,
                    #[trigger] h.subrange(j, j + p.len() as int),
                ) by {
                    if j > 0 {
                        assert(!m.equiv(p, h.skip(1).subrange(j - 1, j - 1 + p.len() as int)));
                    }
                }
            },
        }
    }
}

/// The pieces occur in `h`, in order and without overlap, each at or after
/// `from`, each window equivalent to its piece; pieces of length zero are
/// skipped, as the scan skips them.
pub open spec fn pieces_occur<M: Matcher>(
    m: M,
    pieces: Seq<Seq<u8>>,
    h: Seq<u8>,
    from: int,
) -> bool
    decreases pieces.len(),
{
    if pieces.len() == 0 {
        true
    } else if pieces[0].len() == 0 {
        pieces_occur(m, pieces.skip(1), h, from)
    } else {
        exists|o: int|
            from <= o && o + pieces[0].len() <= h.len() && m.equiv(
                pieces[0],
                #[trigger] h.subrange(o, o + pieces[0].len() as int),
            ) && pieces_occur(m, pieces.skip(1), h, o + pieces[0].len())
    }
}

/// An occurrence inside the suffix `h.skip(d)` is an occurrence inside `h`,
/// shifted by `d`.
proof fn lemma_occur_shift<M: Matcher>(m: M, pieces: Seq<Seq<u8>>, h: Seq<u8>, d: int, from: int)
    requires
        0 <= d <= h.len(),
        0 <= from,
        pieces_occur(m, pieces, h.skip(d), from),
    ensures
        pieces_occur(m, pieces, h, from + d),
    decreases pieces.len(),
{
    if pieces.len() == 0 {
    } else if pieces[0].len() == 0 {
        lemma_occur_shift(m, pieces.skip(1), h, d, from);
    } else {
        let o = choose|o: int|
            from <= o && o + pieces[0].len() <= h.skip(d).len() && m.equiv(
                pieces[0],
                #[trigger] h.skip(d).subrange(o, o + pieces[0].len() as int),
            ) && pieces_occur(m, pieces.skip(1), h.skip(d), o + pieces[0].len());
        assert(h.skip(d).subrange(o, o + pieces[0].len() as int) =~= h.subrange(
            o + d,
            o + d + pieces[0].len() as int,
        ));
        lemma_occur_shift(m, pieces.skip(1), h, d, o + pieces[0].len());
        assert(from + d <= o + d && o + d + pieces[0].len() <= h.len() && m.equiv(
            pieces[0],
            h.subrange(o + d, o + d + pieces[0].len() as int),
        ) && pieces_occur(m, pieces.skip(1), h, o + d + pieces[0].len()));
    }
}

/// A successful scan yields occurrences of all pieces starting anywhere in
/// `h`, and a remainder that is a suffix of `h`.
pub proof fn lemma_scan_match_occurs<M: Matcher>(m: M, pieces: Seq<Seq<u8>>, h: Seq<u8>, rest: Seq<u8>)
    requires
        scan_match(m, pieces, h) == Some(rest),
    ensures
        pieces_occur(m, pieces, h, 0),
        rest.len() <= h.len(),
        rest == h.skip(h.len() - rest.len()),
    decreases pieces.len(),
{
    if pieces.len() == 0 {
        assert(rest == h);
        assert(h.skip(0) =~= h);
    } else if pieces[0].len() == 0 {
        lemma_scan_match_occurs(m, pieces.skip(1), h, rest);
    } else {
        lemma_find_first(m, pieces[0], h);
        let i = find_first(m, pieces[0], h).unwrap();
        let h2 = h.skip(i + pieces[0].len());
        lemma_scan_match_occurs(m, pieces.skip(1), h2, rest);
        lemma_occur_shift(m, pieces.skip(1), h, i + pieces[0].len(), 0);
        assert(pieces_occur(m, pieces.skip(1), h, i + pieces[0].len()));
        assert(0 <= i && i + pieces[0].len() <= h.len() && m.equiv(
            pieces[0],
            h.subrange(i, i + pieces[0].len() as int),
        ) && pieces_occur(m, pieces.skip(1), h, i + pieces[0].len()));
        assert(h2.skip(h2.len() - rest.len()) =~= h.skip(h.len() - rest.len()));
    }
}

/// A successful anchored-prefix match yields occurrences of all pieces, the
/// first one exactly at offset 0, and a remainder that is a suffix of `h`.
pub proof fn lemma_prefix_match_occurs<M: Matcher>(
    m: M,
    pieces: Seq<Seq<u8>>,
    h: Seq<u8>,
    rest: Seq<u8>,
)
    requires
        prefix_match(m, pieces, h) == Some(rest),
    ensures
        pieces_occur(m, pieces, h, 0),
        pieces.len() > 0 ==> pieces[0].len() <= h.len() && m.equiv(
            pieces[0],
            h.subrange(0, pieces[0].len() as int),
        ),
        rest.len() <= h.len(),
        rest == h.skip(h.len() - rest.len()),
{
    if pieces.len() == 0 {
        assert(h.skip(0) =~= h);
    } else {
        let l0 = pieces[0].len() as int;
        let h2 = h.skip(l0);
        lemma_scan_match_occurs(m, pieces.skip(1), h2, rest);
        lemma_occur_shift(m, pieces.skip(1), h, l0, 0);
        if pieces[0].len() == 0 {
            assert(h.skip(0) =~= h);
            assert(pieces_occur(m, pieces, h, 0));
        } else {
            assert(0 + pieces[0].len() <= h.len() && m.equiv(
                pieces[0],
                h.subrange(0, 0 + pieces[0].len() as int),
            ) && pieces_occur(m, pieces.skip(1), h, 0 + pieces[0].len() as int));
        }
        assert(h2.skip(h2.len() - rest.len()) =~= h.skip(h.len() - rest.len()));
    }
}

/// What a successful evaluation guarantees: every piece occurs in the
/// haystack, in order and without overlap; when the start is anchored the
/// first piece sits at offset 0; when the end is anchored the remainder is
/// empty; and the remainder is always a suffix of the haystack.
pub proof fn lemma_first_match_occurrences<M: Matcher>(
    m: M,
    start_unanchored: bool,
    end_anchored: bool,
    pieces: Seq<Seq<u8>>,
    h: Seq<u8>,
    rest: Seq<u8>,
)
    requires
        pattern_match(m, start_unanchored, end_anchored, pieces, h) == Some(rest),
    ensures
        pieces_occur(m, pieces, h, 0),
        !start_unanchored && pieces.len() > 0 ==> pieces[0].len() <= h.len() && m.equiv(
            pieces[0],
            h.subrange(0, pieces[0].len() as int),
        ),
        end_anchored ==> rest.len() == 0,
        rest.len() <= h.len(),
        rest == h.skip(h.len() - rest.len()),
{
    if start_unanchored {
        lemma_scan_match_occurs(m, pieces, h, rest);
    } else {
        lemma_prefix_match_occurs(m, pieces, h, rest);
    }
}

/// The empty piece sequence: scanning returns any haystack unchanged, while
/// the anchored-prefix procedure succeeds exactly on the empty haystack.
pub proof fn lemma_empty_pieces<M: Matcher>(m: M, h: Seq<u8>)
    ensures
        scan_match(m, Seq::<Seq<u8>>::empty(), h) == Some(h),
        h.len() == 0 ==> prefix_match(m, Seq::<Seq<u8>>::empty(), h) == Some(h),
        h.len() > 0 ==> prefix_match(m, Seq::<Seq<u8>>::empty(), h) is None,
{
}

} // verus!
