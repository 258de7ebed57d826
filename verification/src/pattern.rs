//! Patterns: ordered literal pieces plus two anchoring flags, built by
//! splitting a template on a wildcard element.

use vstd::prelude::*;

use crate::matcher::Matcher;
use crate::model::{opt_view, pattern_match, piece_views, prefix_match, scan_match};
use crate::{matches_impl, suffix_matches_impl};

verus! {

/// A store of ordered literal pieces that the matcher can walk: anything
/// that can say how many pieces it holds and hand each one out by index.
pub trait Pieces {
    /// The piece sequence this value stands for.
    spec fn pieces_view(&self) -> Seq<Seq<u8>>;

    /// What must hold of the value for its pieces to be read.
    spec fn pieces_inv(&self) -> bool;

    /// How many pieces are stored.
    fn piece_count(&self) -> (n: usize)
        requires
            self.pieces_inv(),
        ensures
            n == self.pieces_view().len(),
    ;

    /// The piece at position `i`.
    fn piece_at<'a>(&'a self, i: usize) -> (p: &'a [u8])
        requires
            self.pieces_inv(),
            i < self.pieces_view().len(),
        ensures
            p@ == self.pieces_view()[i as int],
    ;
}

impl Pieces for Vec<Vec<u8>> {
    open spec fn pieces_view(&self) -> Seq<Seq<u8>> {
        piece_views(self@)
    }

    open spec fn pieces_inv(&self) -> bool {
        true
    }

    fn piece_count(&self) -> (n: usize) {
        self.len()
    }

    fn piece_at<'a>(&'a self, i: usize) -> (p: &'a [u8]) {
        vstd::slice::slice_index_get(self.as_slice(), i).as_slice()
    }
}

/// The fragments of `t` between occurrences of `w`, in order, empty
/// fragments included: splitting `"a**b"` on `*` gives `"a"`, `""`, `"b"`.
pub open spec fn split_raw(t: Seq<u8>, w: u8) -> Seq<Seq<u8>>
    decreases t.len(),
{
    if t.len() == 0 {
        seq![Seq::<u8>::empty()]
    } else if t.last() == w {
        split_raw(t.drop_last(), w).push(Seq::<u8>::empty())
    } else {
        let r = split_raw(t.drop_last(), w);
        r.update(r.len() - 1, r.last().push(t.last()))
    }
}

/// The pieces of a template: the non-empty fragments between wildcard
/// occurrences, in template order.
pub open spec fn split_pieces(t: Seq<u8>, w: u8) -> Seq<Seq<u8>> {
    split_raw(t, w).filter(|p: Seq<u8>| p.len() > 0)
}

/// Whether the template begins with the wildcard (so the start is
/// unanchored).
pub open spec fn template_start_unanchored(t: Seq<u8>, w: u8) -> bool {
    t.len() > 0 && t[0] == w
}

/// Whether the template does not end with the wildcard (so the end is
/// anchored). The empty template is end-anchored.
pub open spec fn template_end_anchored(t: Seq<u8>, w: u8) -> bool {
    !(t.len() > 0 && t.last() == w)
}

/// The two anchoring flags of a pattern, packed into one byte.
#[derive(Default, Debug, Clone, Copy, PartialEq, Eq, PartialOrd, Ord, Hash, Structural)]
pub struct PatternFlags(u8);

impl PatternFlags {
    /// Whether the pattern may begin anywhere in the haystack.
    pub closed spec fn start_unanchored(self) -> bool {
        self.0 & 1 != 0
    }

    /// Whether the pattern must end exactly at the haystack's end.
    pub closed spec fn end_anchored(self) -> bool {
        self.0 & 2 != 0
    }

    /// No flag set: start anchored, end unanchored.
    pub fn empty() -> (r: Self)
        ensures
            !r.start_unanchored(),
            !r.end_anchored(),
    {
        proof {
            assert(0u8 & 1 == 0 && 0u8 & 2 == 0) by (bit_vector);
        }
        PatternFlags(0)
    }

    pub fn is_start_unanchored(self) -> (r: bool)
        ensures
            r == self.start_unanchored(),
    {
        (self.0 & 1) != 0
    }

    /// The same flags, with the start marked unanchored.
    #[must_use]
    pub fn with_start_unanchored(self) -> (r: Self)
        ensures
            r.start_unanchored(),
            r.end_anchored() == self.end_anchored(),
    {
        let ghost b = self.0;
        proof {
            assert((b | 1) & 1 != 0 && (b | 1) & 2 == b & 2) by (bit_vector);
        }
        PatternFlags(self.0 | 1)
    }

    pub fn is_end_anchored(self) -> (r: bool)
        ensures
            r == self.end_anchored(),
    {
        (self.0 & 2) != 0
    }

    /// The same flags, with the end marked anchored.
    #[must_use]
    pub fn with_end_anchored(self) -> (r: Self)
        ensures
            r.end_anchored(),
            r.start_unanchored() == self.start_unanchored(),
    {
        let ghost b = self.0;
        proof {
            assert((b | 2) & 2 != 0 && (b | 2) & 1 == b & 1) by (bit_vector);
        }
        PatternFlags(self.0 | 2)
    }
}

/// A template that holds no wildcard splits into itself as its only raw
/// fragment.
proof fn lemma_split_raw_no_wildcard(t: Seq<u8>, w: u8)
    requires
        forall|i: int| 0 <= i < t.len() ==> t[i] != w,
    ensures
        split_raw(t, w) == seq![t],
    decreases t.len(),
{
    if t.len() == 0 {
        assert(Seq::<u8>::empty() =~= t);
    } else {
        lemma_split_raw_no_wildcard(t.drop_last(), w);
        assert(t.drop_last().push(t.last()) =~= t);
        assert(split_raw(t, w) =~= seq![t]);
    }
}

/// A template without a wildcard is start-anchored and end-anchored and
/// holds itself as its only piece (none, if it is empty), so it matches
/// exactly the haystacks of its own length that are equivalent to it, with
/// nothing left over. The strategy is only assumed to relate two empty
/// sequences, as all three strategies here do.
pub proof fn lemma_literal_template_match<M: Matcher>(m: M, t: Seq<u8>, w: u8, h: Seq<u8>)
    requires
        forall|i: int| 0 <= i < t.len() ==> t[i] != w,
        m.equiv(Seq::<u8>::empty(), Seq::<u8>::empty()),
    ensures
        pattern_match(
            m,
            template_start_unanchored(t, w),
            template_end_anchored(t, w),
            split_pieces(t, w),
            h,
        ) is Some <==> (h.len() == t.len() && m.equiv(t, h)),
        pattern_match(
            m,
            template_start_unanchored(t, w),
            template_end_anchored(t, w),
            split_pieces(t, w),
            h,
        ) matches Some(rest) ==> rest.len() == 0,
{
    reveal_with_fuel(Seq::filter, 3);
    lemma_split_raw_no_wildcard(t, w);
    let pieces = split_pieces(t, w);
    assert(seq![t].drop_last() =~= Seq::<Seq<u8>>::empty());
    if t.len() == 0 {
        assert(pieces =~= Seq::<Seq<u8>>::empty());
        if h.len() == 0 {
            assert(h =~= t);
        }
    } else {
        assert(pieces =~= seq![t]);
        assert(pieces[0] == t);
        if t.len() <= h.len() {
            if m.equiv(t, h.subrange(0, t.len() as int)) {
                assert(pieces.skip(1) =~= Seq::<Seq<u8>>::empty());
                assert(prefix_match(m, pieces, h) == Some(h.skip(t.len() as int)));
                if h.len() == t.len() {
                    assert(h.subrange(0, t.len() as int) =~= h);
                }
            } else {
                if h.len() == t.len() {
                    assert(h.subrange(0, t.len() as int) =~= h);
                }
            }
        }
    }
}

/// A wildcard-free template under the exact strategy matches exactly the
/// haystack equal to the template.
pub proof fn lemma_literal_template_exact(t: Seq<u8>, w: u8, h: Seq<u8>)
    requires
        forall|i: int| 0 <= i < t.len() ==> t[i] != w,
    ensures
        pattern_match(
            crate::matcher::ExactMatch,
            template_start_unanchored(t, w),
            template_end_anchored(t, w),
            split_pieces(t, w),
            h,
        ) is Some <==> h == t,
{
    lemma_literal_template_match(crate::matcher::ExactMatch, t, w, h);
}

/// A wildcard-free template under the case-insensitive strategy matches
/// exactly the haystacks that are ASCII-case-equal to the template.
pub proof fn lemma_literal_template_case_insensitive(t: Seq<u8>, w: u8, h: Seq<u8>)
    requires
        forall|i: int| 0 <= i < t.len() ==> t[i] != w,
    ensures
        pattern_match(
            crate::matcher::CaseInsensitive,
            template_start_unanchored(t, w),
            template_end_anchored(t, w),
            split_pieces(t, w),
            h,
        ) is Some <==> crate::matcher::case_eq(t, h),
{
    lemma_literal_template_match(crate::matcher::CaseInsensitive, t, w, h);
}

/// A wildcard-free template under the path strategy matches exactly the
/// haystacks that are ASCII-case-equal to the template with `/` and `\`
/// interchangeable at every position.
pub proof fn lemma_literal_template_path(t: Seq<u8>, w: u8, h: Seq<u8>)
    requires
        forall|i: int| 0 <= i < t.len() ==> t[i] != w,
    ensures
        pattern_match(
            crate::matcher::PathMatch,
            template_start_unanchored(t, w),
            template_end_anchored(t, w),
            split_pieces(t, w),
            h,
        ) is Some <==> crate::matcher::path_eq(t, h),
{
    lemma_literal_template_match(crate::matcher::PathMatch, t, w, h);
}

/// An immutable pattern: anchoring flags plus the ordered literal pieces,
/// held in any store of pieces (a vector of them, or a packed buffer).
#[derive(Debug, Clone)]
pub struct Pattern<P = Vec<Vec<u8>>> {
    pub flags: PatternFlags,
    pub pieces: P,
}

impl<P: Pieces> Pattern<P> {
    /// The structural invariant: a pattern never stores an empty piece.
    pub open spec fn wf(self) -> bool {
        forall|i: int|
            0 <= i < self.pieces.pieces_view().len() ==> #[trigger] self.pieces.pieces_view()[i].len()
                > 0
    }

    /// A pattern from parts, as given.
    pub fn new(pieces: P, flags: PatternFlags) -> (r: Self)
        ensures
            r.flags == flags,
            r.pieces == pieces,
    {
        Pattern { pieces, flags }
    }

    /// Evaluate the pattern against `haystack`: leftmost-piece-scan when the
    /// start is unanchored, anchored-prefix otherwise, and an anchored end
    /// demands an empty remainder. Returns the unconsumed suffix on success.
    pub fn first_match<'a, M: Matcher>(&self, matcher: M, haystack: &'a [u8]) -> (r: Option<
        &'a [u8],
    >)
        requires
            self.pieces.pieces_inv(),
        ensures
            opt_view(r) == pattern_match(
                matcher,
                self.flags.start_unanchored(),
                self.flags.end_anchored(),
                self.pieces.pieces_view(),
                haystack@,
            ),
    {
        let rest = if self.flags.is_start_unanchored() {
            suffix_matches_impl(&self.pieces, &matcher, haystack)
        } else {
            matches_impl(&self.pieces, &matcher, haystack)
        };
        match rest {
            Some(r) => if !self.flags.is_end_anchored() || r.len() == 0 {
                Some(r)
            } else {
                None
            },
            None => None,
        }
    }
}

impl Pattern<Vec<Vec<u8>>> {
    /// Parse a template: the pattern whose flags record a leading wildcard
    /// (start unanchored) and a missing trailing wildcard (end anchored),
    /// and whose pieces are the non-empty fragments of the template between
    /// wildcard occurrences, in order. Every template is accepted.
    pub fn parse(template: &[u8], wildcard: &u8) -> (r: Self)
        ensures
            r.flags.start_unanchored() == template_start_unanchored(template@, *wildcard),
            r.flags.end_anchored() == template_end_anchored(template@, *wildcard),
            piece_views(r.pieces@) == split_pieces(template@, *wildcard),
            r.wf(),
    {
        let w = *wildcard;
        let n = template.len();
        let mut flags = PatternFlags::empty();
        if n > 0 && *vstd::slice::slice_index_get(template, 0) == w {
            flags = flags.with_start_unanchored();
        }
        if !(n > 0 && *vstd::slice::slice_index_get(template, n - 1) == w) {
            flags = flags.with_end_anchored();
        }
        proof {
            assert(template@.len() > 0 ==> template@.last() == template@[n - 1]);
        }

        let mut pieces: Vec<Vec<u8>> = Vec::new();
        let mut cur: Vec<u8> = Vec::new();
        let ghost mut raw: Seq<Seq<u8>> = seq![Seq::<u8>::empty()];
        let mut pos: usize = 0;
        proof {
            assert(template@.subrange(0, 0) =~= Seq::<u8>::empty());
            assert(piece_views(pieces@) =~= Seq::<Seq<u8>>::empty());
            assert(raw.drop_last() =~= Seq::<Seq<u8>>::empty());
            reveal(Seq::filter);
            assert(Seq::<Seq<u8>>::empty().filter(|p: Seq<u8>| p.len() > 0)
                =~= Seq::<Seq<u8>>::empty());
        }
        while pos < n
            invariant
                pos <= n,
                n == template@.len(),
                w == *wildcard,
                raw == split_raw(template@.subrange(0, pos as int), w),
                raw.len() >= 1,
                raw.last() == cur@,
                piece_views(pieces@) == raw.drop_last().filter(|p: Seq<u8>| p.len() > 0),
            decreases n - pos,
        {
            let b = *vstd::slice::slice_index_get(template, pos);
            proof {
                let prefix = template@.subrange(0, pos as int);
                let prefix2 = template@.subrange(0, pos + 1);
                assert(prefix2.drop_last() =~= prefix);
                assert(prefix2.last() == template@[pos as int]);
                assert(prefix2.len() > 0);
            }
            if b == w {
                let ghost old_raw = raw;
                let ghost old_pieces = pieces@;
                if cur.len() > 0 {
                    pieces.push(cur);
                    cur = Vec::new();
                }
                proof {
                    reveal(Seq::filter);
                    raw = raw.push(Seq::<u8>::empty());
                    assert(raw.drop_last() =~= old_raw);
                    // one unfolding of filter over old_raw, whose last entry is
                    // the fragment that was just closed
                    assert(old_raw.drop_last().push(old_raw.last()) =~= old_raw);
                    if old_raw.last().len() > 0 {
                        assert(piece_views(pieces@) =~= piece_views(old_pieces).push(
                            old_raw.last(),
                        ));
                        assert(old_raw.filter(|p: Seq<u8>| p.len() > 0)
                            == old_raw.drop_last().filter(|p: Seq<u8>| p.len() > 0).push(
                            old_raw.last(),
                        ));
                    } else {
                        assert(old_raw.filter(|p: Seq<u8>| p.len() > 0) == old_raw.drop_last()
                            .filter(|p: Seq<u8>| p.len() > 0));
                    }
                }
            } else {
                cur.push(b);
                proof {
                    let shrunk = raw;
                    raw = raw.update(raw.len() - 1, raw.last().push(b));
                    assert(raw.drop_last() =~= shrunk.drop_last());
                    assert(raw.last() == shrunk.last().push(b));
                }
            }
            pos += 1;
        }
        proof {
            assert(template@.subrange(0, pos as int) =~= template@);
        }
        if cur.len() > 0 {
            pieces.push(cur);
        }
        proof {
            reveal(Seq::filter);
            assert(raw.drop_last().push(raw.last()) =~= raw);
            if raw.last().len() > 0 {
                assert(raw.filter(|p: Seq<u8>| p.len() > 0) == raw.drop_last().filter(
                    |p: Seq<u8>| p.len() > 0,
                ).push(raw.last()));
            } else {
                assert(raw.filter(|p: Seq<u8>| p.len() > 0) == raw.drop_last().filter(
                    |p: Seq<u8>| p.len() > 0,
                ));
            }
            assert(piece_views(pieces@) == split_pieces(template@, w));
            assert forall|i: int| 0 <= i < pieces@.len() implies #[trigger] pieces@[i]@.len()
                > 0 by {
                Seq::lemma_filter_pred(raw, |p: Seq<u8>| p.len() > 0, i);
                assert(piece_views(pieces@)[i] == pieces@[i]@);
            }
        }
        Pattern { flags, pieces }
    }
}

impl PartialEq for Pattern {
    /// Two patterns are equal when their flags and their piece sequences
    /// are.
    fn eq(&self, other: &Self) -> (r: bool) {
        if !(self.flags == other.flags) {
            return false;
        }
        let n = self.pieces.len();
        if n != other.pieces.len() {
            proof {
                assert(piece_views(self.pieces@).len() != piece_views(other.pieces@).len());
            }
            return false;
        }
        let mut i: usize = 0;
        while i < n
            invariant
                i <= n,
                n == self.pieces@.len() && n == other.pieces@.len(),
                forall|j: int| 0 <= j < i ==> self.pieces@[j]@ == other.pieces@[j]@,
            decreases n - i,
        {
            let a = vstd::slice::slice_index_get(self.pieces.as_slice(), i);
            let b = vstd::slice::slice_index_get(other.pieces.as_slice(), i);
            if !crate::matcher::eq_bytes(a.as_slice(), b.as_slice()) {
                proof {
                    assert(piece_views(self.pieces@)[i as int] != piece_views(
                        other.pieces@,
                    )[i as int]);
                }
                return false;
            }
            i += 1;
        }
        proof {
            assert(piece_views(self.pieces@) =~= piece_views(other.pieces@));
        }
        true
    }
}

impl vstd::std_specs::cmp::PartialEqSpecImpl for Pattern {
    open spec fn obeys_eq_spec() -> bool {
        true
    }

    open spec fn eq_spec(&self, other: &Pattern) -> bool {
        self.flags == other.flags && piece_views(self.pieces@) == piece_views(other.pieces@)
    }
}

} // verus!
