//! The ignore-list filter: a pattern-to-directive table over path patterns,
//! and the classification of one line of an ignore specification.

use vstd::prelude::*;

use crate::matcher::PathMatch;
use crate::model::{pattern_match, piece_views};
use crate::pattern::{Pattern, PatternFlags, Pieces};
use crate::u8_buf::{lemma_nonempty_pieces_identity, lemma_packed_equality, nonempty_pieces,
    U8Pieces};

verus! {

/// The classification a stored pattern carries: a matching `Exclude`
/// pattern always wins; otherwise at least one matching `Include` pattern
/// excludes the path from further processing.
#[derive(Debug, Clone, Copy, PartialEq, Eq, PartialOrd, Ord, Hash, Structural)]
pub enum Directive {
    Include,
    Exclude,
}

/// The key under which a parsed pattern is looked up: its flags and its
/// pieces.
pub open spec fn pattern_key(p: Pattern) -> (PatternFlags, Seq<Seq<u8>>) {
    (p.flags, piece_views(p.pieces@))
}

/// The key of a stored entry, whose pieces sit in a packed buffer.
pub open spec fn stored_key(p: Pattern<U8Pieces>) -> (PatternFlags, Seq<Seq<u8>>) {
    (p.flags, p.pieces@)
}

/// Whether a stored pattern matches `h` under the path strategy.
pub open spec fn entry_matches(p: Pattern<U8Pieces>, h: Seq<u8>) -> bool {
    pattern_match(
        PathMatch,
        p.flags.start_unanchored(),
        p.flags.end_anchored(),
        p.pieces@,
        h,
    ) is Some
}

/// A pattern-to-directive table. The patterns are stored with their pieces
/// in packed buffers, whose byte-for-byte equality stands for pattern
/// equality; the entries carry pairwise distinct keys and sit in no
/// significant order, since the outcome of `has_match` does not depend on
/// it: a matching `Exclude` entry wins over everything.
pub struct PatternMap(pub Vec<(Pattern<U8Pieces>, Directive)>);

impl PatternMap {
    /// Every stored buffer is well formed, and no two entries store the
    /// same pattern.
    pub open spec fn wf(self) -> bool {
        (forall|i: int| 0 <= i < self.0@.len() ==> (#[trigger] self.0@[i].0.pieces).wf())
            && (forall|i: int, j: int|
            0 <= i < j < self.0@.len() ==> stored_key(#[trigger] self.0@[i].0) != stored_key(
                #[trigger] self.0@[j].0,
            ))
    }

    /// An empty table.
    pub fn new() -> (r: Self)
        ensures
            r.wf(),
            r.0@.len() == 0,
    {
        PatternMap(Vec::new())
    }

    /// Whether `haystack` is excluded by the table: true when no `Exclude`
    /// entry matches it and at least one `Include` entry does.
    pub fn has_match(&self, haystack: &[u8]) -> (r: bool)
        requires
            self.wf(),
        ensures
            r == ((exists|i: int|
                0 <= i < self.0@.len() && self.0@[i].1 == Directive::Include && entry_matches(
                    #[trigger] self.0@[i].0,
                    haystack@,
                )) && (forall|i: int|
                0 <= i < self.0@.len() && self.0@[i].1 == Directive::Exclude ==> !entry_matches(
                    #[trigger] self.0@[i].0,
                    haystack@,
                ))),
    {
        let mut one_matched = false;
        let n = self.0.len();
        let mut i: usize = 0;
        while i < n
            invariant
                i <= n,
                n == self.0@.len(),
                self.wf(),
                one_matched == (exists|j: int|
                    0 <= j < i && self.0@[j].1 == Directive::Include && entry_matches(
                        #[trigger] self.0@[j].0,
                        haystack@,
                    )),
                forall|j: int|
                    0 <= j < i && self.0@[j].1 == Directive::Exclude ==> !entry_matches(
                        #[trigger] self.0@[j].0,
                        haystack@,
                    ),
            decreases n - i,
        {
            let entry = vstd::slice::slice_index_get(self.0.as_slice(), i);
            let matched = entry.0.first_match(PathMatch, haystack);
            if matched.is_some() {
                match entry.1 {
                    Directive::Include => {
                        one_matched = true;
                    },
                    Directive::Exclude => {
                        return false;
                    },
                }
            }
            i += 1;
        }
        one_matched
    }

    /// Store `pattern` with `directive`, the pieces re-homed into a packed
    /// buffer: a new entry, or the new directive on the entry that already
    /// holds an equal pattern.
    pub fn insert(&mut self, pattern: Pattern, directive: Directive)
        requires
            old(self).wf(),
            pattern.wf(),
        ensures
            final(self).wf(),
            (exists|i: int|
                0 <= i < old(self).0@.len() && stored_key(#[trigger] old(self).0@[i].0)
                    == pattern_key(pattern)) ==> (final(self).0@.len() == old(self).0@.len()
                && (forall|j: int|
                0 <= j < old(self).0@.len() ==> (if stored_key(#[trigger] old(self).0@[j].0)
                    == pattern_key(pattern) {
                    stored_key(final(self).0@[j].0) == pattern_key(pattern) && final(self).0@[j].1
                        == directive
                } else {
                    final(self).0@[j] == old(self).0@[j]
                }))),
            !(exists|i: int|
                0 <= i < old(self).0@.len() && stored_key(#[trigger] old(self).0@[i].0)
                    == pattern_key(pattern)) ==> (final(self).0@.len() == old(self).0@.len() + 1
                && (forall|j: int|
                0 <= j < old(self).0@.len() ==> final(self).0@[j] == old(self).0@[j]) && stored_key(
                final(self).0@[old(self).0@.len() as int].0,
            ) == pattern_key(pattern) && final(self).0@[old(self).0@.len() as int].1 == directive),
    {
        let packed = U8Pieces::from_pieces(pattern.pieces.as_slice());
        proof {
            assert forall|i: int|
                0 <= i < piece_views(pattern.pieces@).len() implies #[trigger] piece_views(
                pattern.pieces@,
            )[i].len() > 0 by {
                assert(pattern.pieces.pieces_view()[i].len() > 0);
            }
            lemma_nonempty_pieces_identity(piece_views(pattern.pieces@));
            assert(packed@ == piece_views(pattern.pieces@));
        }
        let n = self.0.len();
        let mut i: usize = 0;
        let mut found = false;
        while i < n && !found
            invariant
                i <= n,
                n == self.0@.len(),
                self.0@ == old(self).0@,
                self.wf(),
                packed.wf(),
                packed@ == piece_views(pattern.pieces@),
                found ==> i < n && stored_key(self.0@[i as int].0) == pattern_key(pattern),
                forall|j: int|
                    0 <= j < i ==> stored_key(#[trigger] self.0@[j].0) != pattern_key(pattern),
            decreases n - i + (if found {
                0int
            } else {
                1int
            }),
        {
            let same = {
                let entry = vstd::slice::slice_index_get(self.0.as_slice(), i);
                entry.0.flags == pattern.flags && entry.0.pieces == packed
            };
            proof {
                lemma_packed_equality(self.0@[i as int].0.pieces, packed);
            }
            if same {
                found = true;
            } else {
                i += 1;
            }
        }
        if found {
            let ghost prior = self.0@;
            self.0.remove(i);
            self.0.insert(i, (Pattern::new(packed, pattern.flags), directive));
            proof {
                assert(self.0@ =~= prior.update(
                    i as int,
                    (Pattern { flags: pattern.flags, pieces: packed }, directive),
                ));
                assert(stored_key(prior[i as int].0) == pattern_key(pattern));
                assert forall|j: int|
                    0 <= j < prior.len() && stored_key(#[trigger] prior[j].0) == pattern_key(
                        pattern,
                    ) implies j == i by {
                    if j < i {
                        assert(stored_key(prior[j].0) != pattern_key(pattern));
                    } else if j > i {
                        assert(stored_key(prior[i as int].0) != stored_key(prior[j].0));
                    }
                }
                assert(stored_key(self.0@[i as int].0) == pattern_key(pattern));
            }
        } else {
            self.0.push((Pattern::new(packed, pattern.flags), directive));
        }
    }
}

/// A byte that counts as whitespace when a line is trimmed.
pub open spec fn is_space(b: u8) -> bool {
    b == 32 || (9 <= b <= 13)
}

/// The sequence without its leading whitespace.
pub open spec fn trim_start(s: Seq<u8>) -> Seq<u8>
    decreases s.len(),
{
    if s.len() > 0 && is_space(s[0]) {
        trim_start(s.skip(1))
    } else {
        s
    }
}

/// The sequence without its trailing whitespace.
pub open spec fn trim_end(s: Seq<u8>) -> Seq<u8>
    decreases s.len(),
{
    if s.len() > 0 && is_space(s.last()) {
        trim_end(s.drop_last())
    } else {
        s
    }
}

/// The sequence without leading and trailing whitespace.
pub open spec fn trim(s: Seq<u8>) -> Seq<u8> {
    trim_end(trim_start(s))
}

/// What one line of an ignore specification contributes, after trimming
/// whitespace: nothing for an empty line or a `#` comment; the rest of the
/// line as an `Exclude` pattern after `!`; the rest verbatim as an `Include`
/// pattern after `\` (the escape for a literal leading `#` or `!`); the
/// whole trimmed line as an `Include` pattern otherwise.
pub open spec fn classify_spec(s: Seq<u8>) -> Option<(Seq<u8>, Directive)> {
    let t = trim(s);
    if t.len() == 0 {
        None
    } else if t[0] == 35 {
        None
    } else if t[0] == 33 {
        Some((t.skip(1), Directive::Exclude))
    } else if t[0] == 92 {
        Some((t.skip(1), Directive::Include))
    } else {
        Some((t, Directive::Include))
    }
}

/// Dropping leading whitespace is taking the suffix at the first
/// non-whitespace position.
proof fn lemma_trim_start_at(s: Seq<u8>, k: int)
    requires
        0 <= k <= s.len(),
        forall|j: int| 0 <= j < k ==> is_space(s[j]),
        k < s.len() ==> !is_space(s[k]),
    ensures
        trim_start(s) == s.skip(k),
    decreases k,
{
    if k == 0 {
        assert(s.skip(0) =~= s);
    } else {
        assert(is_space(s[0]));
        lemma_trim_start_at(s.skip(1), k - 1);
        assert(s.skip(1).skip(k - 1) =~= s.skip(k));
    }
}

/// Dropping trailing whitespace is taking the prefix up to the last
/// non-whitespace position.
pub(crate) proof fn lemma_trim_end_at(s: Seq<u8>, k: int)
    requires
        0 <= k <= s.len(),
        forall|j: int| k <= j < s.len() ==> is_space(s[j]),
        k > 0 ==> !is_space(s[k - 1]),
    ensures
        trim_end(s) == s.take(k),
    decreases s.len(),
{
    if k == s.len() {
        if s.len() > 0 && is_space(s.last()) {
            assert(!is_space(s[k - 1]));
            assert(false);
        }
        assert(s.take(k) =~= s);
    } else {
        assert(is_space(s.last()));
        lemma_trim_end_at(s.drop_last(), k);
        assert(s.drop_last().take(k) =~= s.take(k));
    }
}

/// Classify one line, handing back the pattern text and directive it
/// registers, if any.
pub fn classify_line(line: &[u8]) -> (r: Option<(Vec<u8>, Directive)>)
    ensures
        match (r, classify_spec(line@)) {
            (Some(p), Some(q)) => p.0@ == q.0 && p.1 == q.1,
            (None, None) => true,
            _ => false,
        },
{
    let n = line.len();
    let mut start: usize = 0;
    while start < n && is_space_byte(*vstd::slice::slice_index_get(line, start))
        invariant
            start <= n,
            n == line@.len(),
            forall|j: int| 0 <= j < start ==> is_space(line@[j]),
        decreases n - start,
    {
        start += 1;
    }
    let mut end: usize = n;
    while end > start && is_space_byte(*vstd::slice::slice_index_get(line, end - 1))
        invariant
            start <= end <= n,
            n == line@.len(),
            forall|j: int| 0 <= j < start ==> is_space(line@[j]),
            forall|j: int| end <= j < n ==> is_space(line@[j]),
        decreases end,
    {
        end -= 1;
    }
    proof {
        lemma_trim_start_at(line@, start as int);
        let suffix = line@.skip(start as int);
        lemma_trim_end_at(suffix, end - start);
        assert(suffix.take(end - start) =~= line@.subrange(start as int, end as int));
        assert(trim(line@) == line@.subrange(start as int, end as int));
    }
    let ghost t = trim(line@);
    if end == start {
        return None;
    }
    let first = *vstd::slice::slice_index_get(line, start);
    assert(first == t[0]);
    if first == 35 {
        None
    } else if first == 33 || first == 92 {
        let text = vstd::slice::slice_to_vec(
            vstd::slice::slice_subrange(line, start + 1, end),
        );
        proof {
            assert(text@ =~= t.skip(1));
        }
        if first == 33 {
            Some((text, Directive::Exclude))
        } else {
            Some((text, Directive::Include))
        }
    } else {
        let text = vstd::slice::slice_to_vec(vstd::slice::slice_subrange(line, start, end));
        Some((text, Directive::Include))
    }
}

/// Executable whitespace test, matching `is_space`.
pub(crate) fn is_space_byte(b: u8) -> (r: bool)
    ensures
        r == is_space(b),
{
    b == 32 || (b >= 9 && b <= 13)
}

} // verus!
