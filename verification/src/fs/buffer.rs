//! The `File` interface and the buffers that user memory is lent through.

use vstd::prelude::*;

verus! {

/// Something that a process can read from or write to through a file
/// descriptor, and whether it can.  Moving the bytes themselves is the
/// console's or the pipe's own business (see `Stdout::write`,
/// `StdinBuffer::read_step` and `PipeRingBuffer`).
pub trait File {
    /// Whether the file can be read.
    spec fn can_read(&self) -> bool;

    /// Whether the file can be written.
    spec fn can_write(&self) -> bool;

    fn readable(&self) -> (r: bool)
        ensures
            r == self.can_read(),
    ;

    fn writable(&self) -> (r: bool)
        ensures
            r == self.can_write(),
    ;
}

/// Pieces of user memory, in order; together they form one byte string.
pub struct UserBuffer {
    pub inner: Vec<Vec<u8>>,
}

/// The byte string formed by the pieces, in order.
pub open spec fn pieces_bytes(pieces: Seq<Vec<u8>>) -> Seq<u8> {
    pieces.map_values(|v: Vec<u8>| v@).flatten()
}

proof fn lemma_pieces_push(pieces: Seq<Vec<u8>>, i: int)
    requires
        0 <= i < pieces.len(),
    ensures
        pieces_bytes(pieces.take(i + 1)) == pieces_bytes(pieces.take(i)) + pieces[i]@,
{
    let s = pieces.take(i).map_values(|v: Vec<u8>| v@);
    assert(pieces.take(i + 1).map_values(|v: Vec<u8>| v@) =~= s.push(pieces[i]@));
    s.lemma_flatten_push(pieces[i]@);
}

impl UserBuffer {
    /// The bytes of the buffer, pieces in order.
    pub open spec fn view(&self) -> Seq<u8> {
        pieces_bytes(self.inner@)
    }

    /// A buffer made of the given pieces.
    pub fn new(buffers: Vec<Vec<u8>>) -> (r: Self)
        ensures
            r.inner@ == buffers@,
    {
        Self { inner: buffers }
    }

    /// The total number of bytes of all pieces.
    pub fn len(&self) -> (r: usize)
        requires
            self.view().len() <= usize::MAX,
        ensures
            r == self.view().len(),
    {
        let mut total: usize = 0;
        let mut i: usize = 0;
        while i < self.inner.len()
            invariant
                i <= self.inner@.len(),
                total == pieces_bytes(self.inner@.take(i as int)).len(),
                self.view().len() <= usize::MAX,
            decreases self.inner@.len() - i,
        {
            proof {
                lemma_pieces_push(self.inner@, i as int);
                lemma_prefix_len_le(self.inner@, (i + 1) as int);
            }
            total = total + self.inner[i].len();
            i = i + 1;
        }
        proof {
            assert(self.inner@.take(i as int) =~= self.inner@);
        }
        total
    }

    /// All bytes of the buffer in one vector.
    pub fn concat(&self) -> (r: Vec<u8>)
        ensures
            r@ == self.view(),
    {
        let mut out: Vec<u8> = Vec::new();
        let mut i: usize = 0;
        while i < self.inner.len()
            invariant
                i <= self.inner@.len(),
                out@ == pieces_bytes(self.inner@.take(i as int)),
            decreases self.inner@.len() - i,
        {
            proof {
                lemma_pieces_push(self.inner@, i as int);
            }
            let piece = &self.inner[i];
            let mut j: usize = 0;
            let ghost before = out@;
            while j < piece.len()
                invariant
                    j <= piece@.len(),
                    out@ == before + piece@.take(j as int),
                decreases piece@.len() - j,
            {
                out.push(piece[j]);
                j = j + 1;
                proof {
                    assert(piece@.take(j as int) =~= piece@.take(j - 1).push(piece@[j - 1]));
                }
            }
            proof {
                assert(piece@.take(j as int) =~= piece@);
            }
            i = i + 1;
        }
        proof {
            assert(self.inner@.take(i as int) =~= self.inner@);
        }
        out
    }

    /// An iterator over the positions of the buffer's bytes.
    pub fn into_iter(self) -> (r: UserBufferIterator)
        ensures
            r.buffers@ == self.inner@,
            r.current_buffer == 0,
            r.buffer_idx == 0,
    {
        UserBufferIterator { buffers: self.inner, current_buffer: 0, buffer_idx: 0 }
    }
}

proof fn lemma_prefix_len_le(pieces: Seq<Vec<u8>>, i: int)
    requires
        0 <= i <= pieces.len(),
    ensures
        pieces_bytes(pieces.take(i)).len() <= pieces_bytes(pieces).len(),
    decreases pieces.len() - i,
{
    if i < pieces.len() {
        lemma_pieces_push(pieces, i);
        lemma_prefix_len_le(pieces, i + 1);
    } else {
        assert(pieces.take(i) =~= pieces);
    }
}

/// Walks the bytes of a buffer, piece by piece; yields the piece and the
/// index of each byte within it.
pub struct UserBufferIterator {
    pub buffers: Vec<Vec<u8>>,
    pub current_buffer: usize,
    pub buffer_idx: usize,
}

impl UserBufferIterator {
    /// The position of the next byte, then advances past it; `None` once
    /// every piece is done.  Every piece must be non-empty.
    pub fn next(&mut self) -> (r: Option<(usize, usize)>)
        requires
            old(self).current_buffer < old(self).buffers@.len() ==> old(self).buffer_idx
                < old(self).buffers@[old(self).current_buffer as int]@.len(),
        ensures
            final(self).buffers@ == old(self).buffers@,
            old(self).current_buffer >= old(self).buffers@.len() ==> r.is_none() && *final(self)
                == *old(self),
            r.is_some() == (old(self).remaining().len() > 0),
            r matches Some(p) ==> (p.0 as int, p.1 as int) == old(self).remaining()[0] && final(self).remaining()
                == old(self).remaining().drop_first(),
            old(self).current_buffer < old(self).buffers@.len() ==> {
                &&& r == Some((old(self).current_buffer, old(self).buffer_idx))
                &&& if old(self).buffer_idx + 1 == old(self).buffers@[old(
                    self,
                ).current_buffer as int]@.len() {
                    final(self).current_buffer == old(self).current_buffer + 1
                        && final(self).buffer_idx == 0
                } else {
                    final(self).current_buffer == old(self).current_buffer
                        && final(self).buffer_idx == old(self).buffer_idx + 1
                }
            },
    {
        if self.current_buffer >= self.buffers.len() {
            return None;
        }
        let ret = (self.current_buffer, self.buffer_idx);
        let ghost before = self.remaining();
        let ghost c = self.current_buffer as int;
        let n = self.buffers[self.current_buffer].len();
        if self.buffer_idx + 1 == n {
            self.current_buffer = self.current_buffer + 1;
            self.buffer_idx = 0;
            proof {
                assert(before =~= seq![(c, n - 1)] + positions_from(self.buffers@, c + 1));
                if c + 1 < self.buffers@.len() {
                    assert(self.remaining() =~= positions_from(self.buffers@, c + 1));
                }
                assert(self.remaining() =~= before.drop_first());
            }
        } else {
            self.buffer_idx = self.buffer_idx + 1;
            proof {
                assert(self.remaining() =~= before.drop_first());
            }
        }
        Some(ret)
    }

    /// The positions, piece and index, that the iterator has still to
    /// yield, in order.
    pub open spec fn remaining(&self) -> Seq<(int, int)> {
        let c = self.current_buffer as int;
        if c < self.buffers@.len() {
            Seq::new(
                (self.buffers@[c]@.len() - self.buffer_idx) as nat,
                |j: int| (c, self.buffer_idx + j),
            ) + positions_from(self.buffers@, c + 1)
        } else {
            Seq::empty()
        }
    }
}

/// The positions, piece and index within it, of the bytes of the pieces
/// from piece `i` on, in order.
pub open spec fn positions_from(pieces: Seq<Vec<u8>>, i: int) -> Seq<(int, int)>
    decreases pieces.len() - i,
{
    if 0 <= i < pieces.len() {
        Seq::new(pieces[i]@.len(), |j: int| (i, j)) + positions_from(pieces, i + 1)
    } else {
        Seq::empty()
    }
}

/// The positions of the bytes of the pieces from piece `i` on name those
/// bytes, in order.
proof fn lemma_positions_bytes(pieces: Seq<Vec<u8>>, i: int)
    requires
        0 <= i <= pieces.len(),
    ensures
        positions_from(pieces, i).len() == pieces_bytes(pieces.skip(i)).len(),
        forall|k: int|
            0 <= k < positions_from(pieces, i).len() ==> {
                let p = #[trigger] positions_from(pieces, i)[k];
                &&& i <= p.0 < pieces.len()
                &&& 0 <= p.1 < pieces[p.0]@.len()
                &&& pieces[p.0]@[p.1] == pieces_bytes(pieces.skip(i))[k]
            },
    decreases pieces.len() - i,
{
    let f = |v: Vec<u8>| v@;
    if i == pieces.len() {
        assert(pieces.skip(i).map_values(f) =~= Seq::<Seq<u8>>::empty());
    } else {
        lemma_positions_bytes(pieces, i + 1);
        let ms = pieces.skip(i).map_values(f);
        assert(ms.drop_first() =~= pieces.skip(i + 1).map_values(f));
        assert(ms.first() == pieces[i]@);
        let rest = pieces_bytes(pieces.skip(i + 1));
        assert(pieces_bytes(pieces.skip(i)) == pieces[i]@ + rest);
        let a = Seq::new(pieces[i]@.len(), |j: int| (i, j));
        let r = positions_from(pieces, i + 1);
        assert(positions_from(pieces, i) == a + r);
        assert forall|k: int| 0 <= k < positions_from(pieces, i).len() implies {
            let p = #[trigger] positions_from(pieces, i)[k];
            &&& i <= p.0 < pieces.len()
            &&& 0 <= p.1 < pieces[p.0]@.len()
            &&& pieces[p.0]@[p.1] == pieces_bytes(pieces.skip(i))[k]
        } by {
            if k < a.len() {
                assert(positions_from(pieces, i)[k] == (i, k));
            } else {
                assert(positions_from(pieces, i)[k] == r[k - a.len()]);
                assert(r[k - a.len()] == positions_from(pieces, i + 1)[k - a.len()]);
            }
        }
    }
}

/// Iterating over a buffer whose pieces each hold a byte visits the
/// position of each of its bytes, in order, and nothing else: the iterator
/// that `into_iter` makes has as many positions to yield as the buffer has
/// bytes (its `len`), and the `k`-th of them names the `k`-th byte.
pub proof fn law_iteration_visits_every_byte(buf: UserBuffer, it: UserBufferIterator)
    requires
        it.buffers@ == buf.inner@,
        it.current_buffer == 0,
        it.buffer_idx == 0,
        forall|i: int| 0 <= i < buf.inner@.len() ==> #[trigger] buf.inner@[i]@.len() > 0,
    ensures
        it.remaining().len() == buf.view().len(),
        forall|k: int|
            0 <= k < it.remaining().len() ==> {
                let p = #[trigger] it.remaining()[k];
                &&& 0 <= p.0 < buf.inner@.len()
                &&& 0 <= p.1 < buf.inner@[p.0]@.len()
                &&& buf.inner@[p.0]@[p.1] == buf.view()[k]
            },
{
    let pieces = buf.inner@;
    lemma_positions_bytes(pieces, 0);
    assert(pieces.skip(0) =~= pieces);
    assert(it.remaining() =~= positions_from(pieces, 0));
}

} // verus!
