//! A packed, owned encoding of an ordered byte-piece sequence: each
//! non-empty piece is stored as an 8-byte little-endian length prefix
//! followed by its raw bytes. Pieces of length zero are never written.

use vstd::prelude::*;

verus! {

/// The 8-byte little-endian length prefix of a record.
pub open spec fn len_prefix(n: u64) -> Seq<u8> {
    seq![
        (n & 0xff) as u8,
        ((n >> 8) & 0xff) as u8,
        ((n >> 16) & 0xff) as u8,
        ((n >> 24) & 0xff) as u8,
        ((n >> 32) & 0xff) as u8,
        ((n >> 40) & 0xff) as u8,
        ((n >> 48) & 0xff) as u8,
        ((n >> 56) & 0xff) as u8,
    ]
}

/// The encoding of one piece: its length prefix followed by its bytes.
pub open spec fn encode_piece(p: Seq<u8>) -> Seq<u8> {
    len_prefix(p.len() as u64) + p
}

/// The encoding of a piece sequence: the concatenation of its pieces'
/// records, in order.
pub open spec fn encode_seq(ps: Seq<Seq<u8>>) -> Seq<u8>
    decreases ps.len(),
{
    if ps.len() == 0 {
        Seq::<u8>::empty()
    } else {
        encode_piece(ps[0]) + encode_seq(ps.skip(1))
    }
}

/// Appending a piece appends its record.
proof fn lemma_encode_push(ps: Seq<Seq<u8>>, p: Seq<u8>)
    ensures
        encode_seq(ps.push(p)) == encode_seq(ps) + encode_piece(p),
    decreases ps.len(),
{
    if ps.len() == 0 {
        assert(ps.push(p)[0] == p);
        assert(ps.push(p).skip(1) =~= Seq::<Seq<u8>>::empty());
        assert(encode_seq(ps.push(p).skip(1)) == Seq::<u8>::empty());
        assert(encode_seq(ps.push(p)) == encode_piece(p) + Seq::<u8>::empty());
        assert(encode_seq(ps) == Seq::<u8>::empty());
        assert(encode_seq(ps.push(p)) =~= encode_seq(ps) + encode_piece(p));
    } else {
        assert(ps.push(p).skip(1) =~= ps.skip(1).push(p));
        lemma_encode_push(ps.skip(1), p);
        assert(ps.push(p)[0] == ps[0]);
        assert(encode_seq(ps.push(p)) =~= encode_seq(ps) + encode_piece(p));
    }
}

/// Reading the eight prefix bytes back gives the encoded length.
proof fn lemma_len_prefix_decodes(n: u64)
    ensures
        (len_prefix(n)[0] as u64) | ((len_prefix(n)[1] as u64) << 8) | ((len_prefix(n)[2]
            as u64) << 16) | ((len_prefix(n)[3] as u64) << 24) | ((len_prefix(n)[4] as u64)
            << 32) | ((len_prefix(n)[5] as u64) << 40) | ((len_prefix(n)[6] as u64) << 48) | ((
        len_prefix(n)[7] as u64) << 56) == n,
{
    assert((((n & 0xff) as u8) as u64) | ((((n >> 8) & 0xff) as u8) as u64) << 8 | ((((n >> 16)
        & 0xff) as u8) as u64) << 16 | ((((n >> 24) & 0xff) as u8) as u64) << 24 | ((((n >> 32)
        & 0xff) as u8) as u64) << 32 | ((((n >> 40) & 0xff) as u8) as u64) << 40 | ((((n >> 48)
        & 0xff) as u8) as u64) << 48 | ((((n >> 56) & 0xff) as u8) as u64) << 56 == n)
        by (bit_vector);
}

/// The value that eight little-endian bytes stand for.
pub open spec fn le_value(b: Seq<u8>) -> u64 {
    (b[0] as u64) | ((b[1] as u64) << 8) | ((b[2] as u64) << 16) | ((b[3] as u64) << 24) | ((
    b[4] as u64) << 32) | ((b[5] as u64) << 40) | ((b[6] as u64) << 48) | ((b[7] as u64) << 56)
}

/// The sequential decoding of a packed buffer: read a length prefix, take
/// that many bytes as the next piece, repeat until the buffer is exhausted;
/// nothing, if the bytes run out mid-record.
pub open spec fn decode_all(b: Seq<u8>) -> Option<Seq<Seq<u8>>>
    decreases b.len(),
{
    if b.len() == 0 {
        Some(Seq::<Seq<u8>>::empty())
    } else if b.len() < 8 {
        None
    } else {
        let n = le_value(b.subrange(0, 8)) as int;
        if 8 + n > b.len() {
            None
        } else {
            match decode_all(b.skip(8 + n)) {
                Some(tail) => Some(seq![b.subrange(8, 8 + n)] + tail),
                None => None,
            }
        }
    }
}

/// The round trip: decoding the encoding of any piece sequence (whose
/// lengths are representable) gives back exactly those pieces, in order and
/// in number.
pub proof fn lemma_round_trip(ps: Seq<Seq<u8>>)
    requires
        forall|i: int| 0 <= i < ps.len() ==> #[trigger] ps[i].len() <= usize::MAX,
    ensures
        decode_all(encode_seq(ps)) == Some(ps),
    decreases ps.len(),
{
    let e = encode_seq(ps);
    if ps.len() == 0 {
        assert(ps =~= Seq::<Seq<u8>>::empty());
    } else {
        let l0 = ps[0].len() as u64;
        assert(e.len() >= 8);
        assert forall|k: int| 0 <= k < 8 implies e.subrange(0, 8)[k] == len_prefix(l0)[k] by {
            assert(e[k] == len_prefix(l0)[k]);
        }
        lemma_len_prefix_decodes(l0);
        assert(le_value(e.subrange(0, 8)) == l0);
        assert forall|k: int| 0 <= k < l0 implies e.subrange(8, 8 + l0 as int)[k] == ps[0][k] by {
            assert(e[8 + k] == ps[0][k]);
        }
        assert(e.subrange(8, 8 + l0 as int) =~= ps[0]);
        assert(e.skip(8 + l0 as int) =~= encode_seq(ps.skip(1)));
        lemma_round_trip(ps.skip(1));
        assert(seq![ps[0]] + ps.skip(1) =~= ps);
    }
}

/// Equal encodings come from equal piece sequences: the first length prefix
/// pins the first piece, and so on.
proof fn lemma_encode_injective(a: Seq<Seq<u8>>, b: Seq<Seq<u8>>)
    requires
        forall|i: int| 0 <= i < a.len() ==> #[trigger] a[i].len() <= usize::MAX,
        forall|i: int| 0 <= i < b.len() ==> #[trigger] b[i].len() <= usize::MAX,
        encode_seq(a) == encode_seq(b),
    ensures
        a == b,
    decreases a.len(),
{
    let ea = encode_seq(a);
    let eb = encode_seq(b);
    if a.len() == 0 && b.len() == 0 {
        assert(a =~= b);
    } else if a.len() == 0 {
        assert(eb.len() >= 8);
        assert(false);
    } else if b.len() == 0 {
        assert(ea.len() >= 8);
        assert(false);
    } else {
        let la = a[0].len() as u64;
        let lb = b[0].len() as u64;
        assert(ea.len() >= 8 && eb.len() >= 8);
        assert forall|k: int| 0 <= k < 8 implies len_prefix(la)[k] == len_prefix(lb)[k] by {
            assert(ea[k] == len_prefix(la)[k]);
            assert(eb[k] == len_prefix(lb)[k]);
        }
        lemma_len_prefix_decodes(la);
        lemma_len_prefix_decodes(lb);
        assert(la == lb);
        assert(a[0].len() == b[0].len());
        assert forall|k: int| 0 <= k < a[0].len() implies a[0][k] == b[0][k] by {
            assert(ea[8 + k] == a[0][k]);
            assert(eb[8 + k] == b[0][k]);
        }
        assert(a[0] =~= b[0]);
        assert(encode_seq(a.skip(1)) =~= ea.skip(8 + a[0].len() as int));
        assert(encode_seq(b.skip(1)) =~= eb.skip(8 + b[0].len() as int));
        lemma_encode_injective(a.skip(1), b.skip(1));
        assert(a.len() == b.len());
        assert forall|k: int| 0 <= k < a.len() implies a[k] == b[k] by {
            if k > 0 {
                assert(a.skip(1)[k - 1] == b.skip(1)[k - 1]);
            }
        }
        assert(a =~= b);
    }
}

/// An owned, contiguous buffer holding a piece sequence in packed form. Its
/// abstract value (the view) is the sequence of stored pieces.
pub struct U8Pieces {
    buf: Vec<u8>,
    model: Ghost<Seq<Seq<u8>>>,
}

impl View for U8Pieces {
    type V = Seq<Seq<u8>>;

    closed spec fn view(&self) -> Seq<Seq<u8>> {
        self.model@
    }
}

impl U8Pieces {
    /// The buffer is exactly the encoding of the stored pieces, none of
    /// which is empty.
    pub closed spec fn wf(self) -> bool {
        self.buf@ == encode_seq(self.model@) && forall|i: int|
            0 <= i < self.model@.len() ==> 0 < #[trigger] self.model@[i].len() <= usize::MAX
    }

    /// The raw bytes of the packed buffer.
    pub closed spec fn bytes(self) -> Seq<u8> {
        self.buf@
    }

    /// The length in bytes of the packed buffer.
    pub closed spec fn byte_len(self) -> nat {
        self.buf@.len()
    }

    /// An empty packed buffer.
    pub fn new() -> (r: Self)
        ensures
            r.wf(),
            r@ == Seq::<Seq<u8>>::empty(),
    {
        let r = U8Pieces { buf: Vec::new(), model: Ghost(Seq::empty()) };
        r
    }

    /// An empty packed buffer with room for `capacity` bytes.
    pub fn with_capacity(capacity: usize) -> (r: Self)
        ensures
            r.wf(),
            r@ == Seq::<Seq<u8>>::empty(),
    {
        U8Pieces { buf: Vec::with_capacity(capacity), model: Ghost(Seq::empty()) }
    }

    /// Append one piece: an 8-byte length prefix followed by the piece's
    /// bytes. An empty piece carries no information and appends nothing.
    pub fn push(&mut self, piece: &[u8])
        requires
            old(self).wf(),
        ensures
            final(self).wf(),
            piece@.len() > 0 ==> final(self)@ == old(self)@.push(piece@),
            piece@.len() == 0 ==> final(self)@ == old(self)@,
    {
        let plen = piece.len();
        if plen > 0 {
            if plen <= usize::MAX - 8 {
                self.buf.reserve(plen + 8);
            }
            let len64: u64 = plen as u64;
            self.buf.push((len64 & 0xff) as u8);
            self.buf.push(((len64 >> 8) & 0xff) as u8);
            self.buf.push(((len64 >> 16) & 0xff) as u8);
            self.buf.push(((len64 >> 24) & 0xff) as u8);
            self.buf.push(((len64 >> 32) & 0xff) as u8);
            self.buf.push(((len64 >> 40) & 0xff) as u8);
            self.buf.push(((len64 >> 48) & 0xff) as u8);
            self.buf.push(((len64 >> 56) & 0xff) as u8);
            self.buf.extend_from_slice(piece);
            proof {
                let ghost prior = self.model@;
                self.model = Ghost(self.model@.push(piece@));
                lemma_encode_push(prior, piece@);
                assert(self.buf@ =~= encode_seq(prior) + encode_piece(piece@));
            }
        }
    }

    /// How many bytes the buffer can hold before reallocating. Relies on
    /// `Vec::capacity`, which is at least the vector's length.
    pub fn capacity(&self) -> (r: usize)
        ensures
            r >= self.byte_len(),
    {
        vec_capacity(&self.buf)
    }

    /// Reserve room for at least `total_len` more bytes.
    pub fn reserve(&mut self, total_len: usize)
        requires
            old(self).wf(),
        ensures
            final(self).wf(),
            final(self)@ == old(self)@,
    {
        self.buf.reserve(total_len);
    }

    /// Bulk construction: the packed form of all the non-empty pieces, in
    /// order, with the needed capacity computed up front.
    pub fn from_pieces(pieces: &[Vec<u8>]) -> (r: Self)
        ensures
            r.wf(),
            r@ == nonempty_pieces(crate::model::piece_views(pieces@)),
    {
        let n = pieces.len();
        let mut total: usize = 0;
        let mut i: usize = 0;
        while i < n
            invariant
                i <= n,
                n == pieces@.len(),
            decreases n - i,
        {
            let plen = vstd::slice::slice_index_get(pieces, i).len();
            if plen > 0 && total <= usize::MAX - 8 && plen <= usize::MAX - 8 - total {
                total = total + 8 + plen;
            }
            i += 1;
        }
        let mut r = U8Pieces::with_capacity(total);
        let ghost views = crate::model::piece_views(pieces@);
        proof {
            reveal(Seq::filter);
            assert(views.subrange(0, 0) =~= Seq::<Seq<u8>>::empty());
            assert(r@ =~= views.subrange(0, 0).filter(|p: Seq<u8>| p.len() > 0));
        }
        let mut i: usize = 0;
        while i < n
            invariant
                i <= n,
                n == pieces@.len(),
                views == crate::model::piece_views(pieces@),
                r.wf(),
                r@ == views.subrange(0, i as int).filter(|p: Seq<u8>| p.len() > 0),
            decreases n - i,
        {
            let piece = vstd::slice::slice_index_get(pieces, i);
            let ghost before = r@;
            r.push(piece.as_slice());
            proof {
                reveal(Seq::filter);
                let pre = views.subrange(0, i as int);
                let pre2 = views.subrange(0, i + 1);
                assert(pre2.drop_last() =~= pre);
                assert(pre2.last() == pieces@[i as int]@);
                if piece@.len() > 0 {
                    assert(pre2.filter(|p: Seq<u8>| p.len() > 0) == pre.filter(
                        |p: Seq<u8>| p.len() > 0,
                    ).push(pre2.last()));
                } else {
                    assert(pre2.filter(|p: Seq<u8>| p.len() > 0) == pre.filter(
                        |p: Seq<u8>| p.len() > 0,
                    ));
                }
            }
            i += 1;
        }
        proof {
            assert(views.subrange(0, n as int) =~= views);
        }
        r
    }

    /// A cursor over the stored pieces, in order.
    pub fn pieces<'a>(&'a self) -> (it: U8PiecesIter<'a>)
        requires
            self.wf(),
        ensures
            it.wf(),
            it.remaining() == self@,
    {
        proof {
            assert(self.buf@.skip(0) =~= self.buf@);
        }
        U8PiecesIter { buf: self.buf.as_slice(), pos: 0, rest: Ghost(self.model@) }
    }
}

/// The non-empty pieces of a sequence, in order: what the packed encoding
/// keeps.
pub open spec fn nonempty_pieces(ps: Seq<Seq<u8>>) -> Seq<Seq<u8>> {
    ps.filter(|p: Seq<u8>| p.len() > 0)
}

/// A sequence without empty pieces is kept whole.
pub proof fn lemma_nonempty_pieces_identity(ps: Seq<Seq<u8>>)
    requires
        forall|i: int| 0 <= i < ps.len() ==> #[trigger] ps[i].len() > 0,
    ensures
        nonempty_pieces(ps) == ps,
    decreases ps.len(),
{
    reveal(Seq::filter);
    if ps.len() == 0 {
        assert(nonempty_pieces(ps) =~= ps);
    } else {
        assert forall|i: int| 0 <= i < ps.drop_last().len() implies #[trigger] ps.drop_last()[i].len()
            > 0 by {
            assert(ps.drop_last()[i] == ps[i]);
        }
        lemma_nonempty_pieces_identity(ps.drop_last());
        assert(ps.last().len() > 0);
        assert(nonempty_pieces(ps) == nonempty_pieces(ps.drop_last()).push(ps.last()));
        assert(ps.drop_last().push(ps.last()) =~= ps);
    }
}

/// Each record takes at least its eight prefix bytes.
proof fn lemma_encode_count(ps: Seq<Seq<u8>>)
    ensures
        encode_seq(ps).len() >= 8 * ps.len(),
    decreases ps.len(),
{
    if ps.len() > 0 {
        lemma_encode_count(ps.skip(1));
    }
}

impl crate::pattern::Pieces for U8Pieces {
    open spec fn pieces_view(&self) -> Seq<Seq<u8>> {
        self@
    }

    open spec fn pieces_inv(&self) -> bool {
        self.wf()
    }

    fn piece_count(&self) -> (n: usize) {
        let blen = self.buf.len();
        proof {
            lemma_encode_count(self.model@);
        }
        let mut it = self.pieces();
        let mut n: usize = 0;
        let mut done = false;
        while !done
            invariant
                it.wf(),
                blen <= usize::MAX,
                8 * self.model@.len() <= blen,
                n + it.remaining().len() == self.model@.len(),
                done ==> it.remaining().len() == 0,
            decreases it.remaining().len() + (if done {
                0int
            } else {
                1int
            }),
        {
            match it.next() {
                Some(_) => {
                    n += 1;
                },
                None => {
                    done = true;
                },
            }
        }
        n
    }

    fn piece_at<'a>(&'a self, i: usize) -> (p: &'a [u8]) {
        let mut it = self.pieces();
        let mut k: usize = 0;
        while k < i
            invariant
                it.wf(),
                k <= i,
                i < self.model@.len(),
                it.remaining() == self.model@.skip(k as int),
            decreases i - k,
        {
            let ghost rem = it.remaining();
            let _ = it.next();
            k += 1;
            proof {
                assert(rem.skip(1) =~= self.model@.skip(k as int));
            }
        }
        match it.next() {
            Some(p) => {
                proof {
                    assert(self.model@.skip(k as int)[0] == self.model@[i as int]);
                }
                p
            },
            None => vstd::pervasive::unreached(),
        }
    }
}

/// The encoding is canonical: two packed buffers hold equal bytes exactly
/// when they store equal piece sequences, which is what lets equality (and
/// any hash of the bytes) of packed buffers stand for equality of patterns.
pub proof fn lemma_packed_equality(a: U8Pieces, b: U8Pieces)
    requires
        a.wf(),
        b.wf(),
    ensures
        (a.bytes() == b.bytes()) <==> (a@ == b@),
{
    if a.bytes() == b.bytes() {
        lemma_encode_injective(a@, b@);
    }
}

impl Default for U8Pieces {
    /// The empty packed buffer.
    fn default() -> (r: Self)
        ensures
            r.wf(),
            r@ == Seq::<Seq<u8>>::empty(),
    {
        U8Pieces::new()
    }
}

impl PartialEq for U8Pieces {
    /// Byte-for-byte comparison of the packed buffers.
    fn eq(&self, other: &Self) -> (r: bool) {
        crate::matcher::eq_bytes(self.buf.as_slice(), other.buf.as_slice())
    }
}

impl vstd::std_specs::cmp::PartialEqSpecImpl for U8Pieces {
    open spec fn obeys_eq_spec() -> bool {
        true
    }

    open spec fn eq_spec(&self, other: &U8Pieces) -> bool {
        self.bytes() == other.bytes()
    }
}

/// Relies on `Vec::capacity`: the capacity is at least the length.
#[verifier::external_body]
fn vec_capacity(v: &Vec<u8>) -> (r: usize)
    ensures
        r >= v@.len(),
{
    v.capacity()
}

/// A decoding cursor over a packed buffer: reads a length prefix, then that
/// many bytes as the next piece, until the buffer is exhausted.
pub struct U8PiecesIter<'a> {
    buf: &'a [u8],
    pos: usize,
    rest: Ghost<Seq<Seq<u8>>>,
}

impl<'a> U8PiecesIter<'a> {
    /// The pieces not yet yielded.
    pub closed spec fn remaining(self) -> Seq<Seq<u8>> {
        self.rest@
    }

    /// The unread part of the buffer is exactly the encoding of the pieces
    /// not yet yielded.
    pub closed spec fn wf(self) -> bool {
        self.pos <= self.buf@.len() && self.buf@.skip(self.pos as int) == encode_seq(self.rest@)
            && forall|i: int| 0 <= i < self.rest@.len() ==> #[trigger] self.rest@[i].len()
            <= usize::MAX
    }

    /// Decode the next piece, if one remains.
    pub fn next(&mut self) -> (r: Option<&'a [u8]>)
        requires
            old(self).wf(),
        ensures
            final(self).wf(),
            old(self).remaining().len() == 0 ==> r is None && final(self).remaining()
                == old(self).remaining(),
            old(self).remaining().len() > 0 ==> (r matches Some(piece) && piece@
                == old(self).remaining()[0] && final(self).remaining()
                == old(self).remaining().skip(1)),
    {
        let buf = self.buf;
        let hlen = buf.len();
        let ghost tail = buf@.skip(self.pos as int);
        if hlen - self.pos < 8 {
            proof {
                if self.rest@.len() > 0 {
                    assert(tail.len() >= encode_piece(self.rest@[0]).len());
                }
            }
            return None;
        }
        let b0 = *vstd::slice::slice_index_get(buf, self.pos);
        let b1 = *vstd::slice::slice_index_get(buf, self.pos + 1);
        let b2 = *vstd::slice::slice_index_get(buf, self.pos + 2);
        let b3 = *vstd::slice::slice_index_get(buf, self.pos + 3);
        let b4 = *vstd::slice::slice_index_get(buf, self.pos + 4);
        let b5 = *vstd::slice::slice_index_get(buf, self.pos + 5);
        let b6 = *vstd::slice::slice_index_get(buf, self.pos + 6);
        let b7 = *vstd::slice::slice_index_get(buf, self.pos + 7);
        let n64: u64 = (b0 as u64) | ((b1 as u64) << 8) | ((b2 as u64) << 16) | ((b3 as u64)
            << 24) | ((b4 as u64) << 32) | ((b5 as u64) << 40) | ((b6 as u64) << 48) | ((b7
            as u64) << 56);
        proof {
            assert(self.rest@.len() > 0) by {
                if self.rest@.len() == 0 {
                    assert(tail.len() == 0);
                }
            }
            let p0 = self.rest@[0];
            let record = encode_piece(p0);
            assert(tail.len() >= record.len());
            assert forall|k: int| 0 <= k < 8 implies tail[k] == len_prefix(
                p0.len() as u64,
            )[k] by {
                assert(record[k] == len_prefix(p0.len() as u64)[k]);
            }
            let lp = len_prefix(p0.len() as u64);
            assert(b0 == tail[0] && tail[0] == lp[0]);
            assert(b1 == tail[1] && tail[1] == lp[1]);
            assert(b2 == tail[2] && tail[2] == lp[2]);
            assert(b3 == tail[3] && tail[3] == lp[3]);
            assert(b4 == tail[4] && tail[4] == lp[4]);
            assert(b5 == tail[5] && tail[5] == lp[5]);
            assert(b6 == tail[6] && tail[6] == lp[6]);
            assert(b7 == tail[7] && tail[7] == lp[7]);
            lemma_len_prefix_decodes(p0.len() as u64);
            assert(n64 == p0.len() as u64);
            assert(n64 <= usize::MAX);
        }
        let plen = n64 as usize;
        if hlen - self.pos - 8 < plen {
            proof {
                let p0 = self.rest@[0];
                assert(tail.len() >= encode_piece(p0).len());
                assert(false);
            }
            return None;
        }
        let piece = vstd::slice::slice_subrange(buf, self.pos + 8, self.pos + 8 + plen);
        proof {
            let p0 = self.rest@[0];
            let record = encode_piece(p0);
            assert forall|k: int| 0 <= k < p0.len() implies piece@[k] == p0[k] by {
                assert(piece@[k] == tail[8 + k]);
                assert(tail[8 + k] == record[8 + k]);
                assert(record[8 + k] == p0[k]);
            }
            assert(piece@ =~= p0);
        }
        self.pos = self.pos + 8 + plen;
        proof {
            let p0 = self.rest@[0];
            let prior = self.rest@;
            self.rest = Ghost(self.rest@.skip(1));
            assert(buf@.skip(self.pos as int) =~= tail.skip(8 + p0.len() as int));
            assert(tail.skip(8 + p0.len() as int) =~= encode_seq(prior.skip(1)));
        }
        Some(piece)
    }
}

} // verus!
