//! Equivalence strategies: stateless rules that decide whether two element
//! windows of equal length count as matching.

use vstd::prelude::*;

verus! {

/// Lowercase image of a byte: ASCII letters `A`..`Z` fold to `a`..`z`, every
/// other byte is unchanged.
pub open spec fn fold_byte(b: u8) -> u8 {
    if 65 <= b <= 90 {
        (b + 32) as u8
    } else {
        b
    }
}

/// ASCII-case-equality of two byte sequences: same length, and each pair of
/// bytes folds to the same value. Non-ASCII bytes compare literally.
pub open spec fn case_eq(a: Seq<u8>, b: Seq<u8>) -> bool {
    a.len() == b.len() && forall|i: int| 0 <= i < a.len() ==> fold_byte(a[i]) == fold_byte(b[i])
}

/// Per-byte equivalence of the path strategy: ASCII-case-equal, or one byte
/// is `/` and the other is `\`.
pub open spec fn path_byte_eq(a: u8, b: u8) -> bool {
    fold_byte(a) == fold_byte(b) || (a == 47 && b == 92) || (a == 92 && b == 47)
}

/// Path equivalence of two byte sequences: same length and per-byte
/// path-equivalent.
pub open spec fn path_eq(a: Seq<u8>, b: Seq<u8>) -> bool {
    a.len() == b.len() && forall|i: int| 0 <= i < a.len() ==> path_byte_eq(a[i], b[i])
}

/// An equivalence strategy. The matcher only ever compares a piece against a
/// window of the same length, but implementations must also answer (with
/// `false`) on length mismatch.
pub trait Matcher: Sized {
    /// The relation that `is_equal` decides, on the abstract sequences.
    spec fn equiv(self, a: Seq<u8>, b: Seq<u8>) -> bool;

    /// Decide whether `a` and `b` are equivalent under this strategy.
    fn is_equal(&self, a: &[u8], b: &[u8]) -> (r: bool)
        ensures
            r == self.equiv(a@, b@),
    ;
}

/// Elementwise equality.
#[derive(Default, Debug, Clone, Copy, PartialEq, Eq, PartialOrd, Ord, Hash)]
pub struct ExactMatch;

impl Matcher for ExactMatch {
    open spec fn equiv(self, a: Seq<u8>, b: Seq<u8>) -> bool {
        a == b
    }

    fn is_equal(&self, a: &[u8], b: &[u8]) -> (r: bool) {
        eq_bytes(a, b)
    }
}

/// Plain elementwise equality of two byte slices.
pub fn eq_bytes(a: &[u8], b: &[u8]) -> (r: bool)
    ensures
        r == (a@ == b@),
{
    let n = a.len();
    if n != b.len() {
        assert(a@ != b@);
        return false;
    }
    let mut i: usize = 0;
    while i < n
        invariant
            n == a@.len() && n == b@.len(),
            i <= n,
            forall|j: int| 0 <= j < i ==> a@[j] == b@[j],
        decreases n - i,
    {
        if *vstd::slice::slice_index_get(a, i) != *vstd::slice::slice_index_get(b, i) {
            assert(a@ != b@);
            return false;
        }
        i += 1;
    }
    assert(a@ =~= b@);
    true
}

/// ASCII-case-insensitive equality over bytes.
#[derive(Default, Debug, Clone, Copy, PartialEq, Eq, PartialOrd, Ord, Hash)]
pub struct CaseInsensitive;

impl Matcher for CaseInsensitive {
    open spec fn equiv(self, a: Seq<u8>, b: Seq<u8>) -> bool {
        case_eq(a, b)
    }

    fn is_equal(&self, a: &[u8], b: &[u8]) -> (r: bool) {
        let n = a.len();
        if n != b.len() {
            return false;
        }
        let mut i: usize = 0;
        while i < n
            invariant
                n == a@.len() && n == b@.len(),
                i <= n,
                forall|j: int| 0 <= j < i ==> fold_byte(a@[j]) == fold_byte(b@[j]),
            decreases n - i,
        {
            let x = ascii_fold(*vstd::slice::slice_index_get(a, i));
            let y = ascii_fold(*vstd::slice::slice_index_get(b, i));
            if x != y {
                return false;
            }
            i += 1;
        }
        true
    }
}

/// Case-insensitive equality that also treats `/` and `\` as interchangeable,
/// for matching filesystem paths.
#[derive(Default, Debug, Clone, Copy, PartialEq, Eq, PartialOrd, Ord, Hash)]
pub struct PathMatch;

impl Matcher for PathMatch {
    open spec fn equiv(self, a: Seq<u8>, b: Seq<u8>) -> bool {
        path_eq(a, b)
    }

    fn is_equal(&self, a: &[u8], b: &[u8]) -> (r: bool) {
        let n = a.len();
        if n != b.len() {
            return false;
        }
        let mut i: usize = 0;
        while i < n
            invariant
                n == a@.len() && n == b@.len(),
                i <= n,
                forall|j: int| 0 <= j < i ==> path_byte_eq(a@[j], b@[j]),
            decreases n - i,
        {
            let x = *vstd::slice::slice_index_get(a, i);
            let y = *vstd::slice::slice_index_get(b, i);
            let case_equal = ascii_fold(x) == ascii_fold(y);
            let slash_equal = (x == 47 && y == 92) || (x == 92 && y == 47);
            if !case_equal && !slash_equal {
                return false;
            }
            i += 1;
        }
        true
    }
}

/// Executable ASCII case folding, matching `fold_byte`.
fn ascii_fold(b: u8) -> (r: u8)
    ensures
        r == fold_byte(b),
{
    if b >= 65 && b <= 90 {
        b + 32
    } else {
        b
    }
}

} // verus!
