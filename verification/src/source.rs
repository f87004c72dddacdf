//! The chunked byte-source collaborator consumed by the reader adapter.

use vstd::prelude::*;

verus! {

/// A pull-based chunked byte source.
///
/// `fill_buf` returns the bytes currently available without consuming them;
/// `consume` advances past bytes of the most recently filled chunk.  An empty
/// chunk from `fill_buf` signals end-of-stream.
pub trait ByteSource: Sized {
    /// All bytes not yet consumed.
    spec fn remaining(&self) -> Seq<u8>;

    /// The bytes of the currently available chunk, a prefix of `remaining`.
    spec fn front(&self) -> Seq<u8>;

    /// The source's internal well-formedness.
    spec fn inv(&self) -> bool;

    /// The available chunk is a prefix of the remaining bytes.
    proof fn lemma_front_prefix(&self)
        requires
            self.inv(),
        ensures
            self.front().len() <= self.remaining().len(),
            self.front() == self.remaining().take(self.front().len() as int),
    ;

    /// Returns the available bytes without consuming them, fetching more
    /// only when none are available.  An empty result means end-of-stream.
    fn fill_buf(&mut self) -> (chunk: Vec<u8>)
        requires
            old(self).inv(),
        ensures
            final(self).inv(),
            final(self).remaining() == old(self).remaining(),
            chunk@ == final(self).front(),
            chunk@.len() == 0 ==> old(self).remaining().len() == 0,
            old(self).front().len() > 0 ==> final(self).front() == old(self).front(),
    ;

    /// Advances past `amt` bytes of the most recently filled chunk.
    fn consume(&mut self, amt: usize)
        requires
            old(self).inv(),
            amt <= old(self).front().len(),
        ensures
            final(self).inv(),
            final(self).remaining() == old(self).remaining().skip(amt as int),
            final(self).front() == old(self).front().skip(amt as int),
    ;
}

/// The bytes of `cs[i..]`, flattened in order.
pub open spec fn flatten_from(cs: Seq<Vec<u8>>, i: int) -> Seq<u8>
    decreases cs.len() - i,
{
    if i < 0 || i >= cs.len() {
        Seq::empty()
    } else {
        cs[i]@ + flatten_from(cs, i + 1)
    }
}

/// An in-memory byte source that serves a fixed list of chunks one at a
/// time, preserving the chunk boundaries it was built with.
pub struct ChunkSource {
    chunks: Vec<Vec<u8>>,
    cur: usize,
    pos: usize,
}

impl ChunkSource {
    pub fn new(chunks: Vec<Vec<u8>>) -> (s: ChunkSource)
        ensures
            s.inv(),
            s.remaining() == flatten_from(chunks@, 0),
            s.front().len() == 0 || s.front() == chunks@[0]@,
    {
        let s = ChunkSource { chunks, cur: 0, pos: 0 };
        proof {
            if s.chunks@.len() > 0 {
                assert(s.chunks@[0]@.skip(0) =~= s.chunks@[0]@);
            }
        }
        s
    }
}

impl ByteSource for ChunkSource {
    closed spec fn remaining(&self) -> Seq<u8> {
        if self.cur < self.chunks@.len() {
            self.chunks@[self.cur as int]@.skip(self.pos as int) + flatten_from(
                self.chunks@,
                self.cur + 1,
            )
        } else {
            Seq::empty()
        }
    }

    closed spec fn front(&self) -> Seq<u8> {
        if self.cur < self.chunks@.len() {
            self.chunks@[self.cur as int]@.skip(self.pos as int)
        } else {
            Seq::empty()
        }
    }

    closed spec fn inv(&self) -> bool {
        &&& self.cur <= self.chunks@.len()
        &&& (self.cur < self.chunks@.len() ==> self.pos <= self.chunks@[self.cur as int]@.len())
        &&& (self.cur == self.chunks@.len() ==> self.pos == 0)
    }

    proof fn lemma_front_prefix(&self) {
        if self.cur < self.chunks@.len() {
            let f = self.front();
            assert(f =~= self.remaining().take(f.len() as int));
        }
    }

    fn fill_buf(&mut self) -> (chunk: Vec<u8>) {
        while self.cur < self.chunks.len() && self.pos == self.chunks[self.cur].len()
            invariant
                self.inv(),
                self.remaining() == old(self).remaining(),
                self.chunks@ == old(self).chunks@,
                old(self).front().len() > 0 ==> self == old(self),
            decreases self.chunks@.len() - self.cur,
        {
            proof {
                assert(self.chunks@[self.cur as int]@.skip(self.pos as int)
                    =~= Seq::<u8>::empty());
                if self.cur + 1 < self.chunks@.len() {
                    assert(self.chunks@[self.cur + 1]@.skip(0) =~= self.chunks@[self.cur + 1]@);
                }
            }
            self.cur = self.cur + 1;
            self.pos = 0;
        }
        if self.cur == self.chunks.len() {
            return Vec::new();
        }
        let c: &Vec<u8> = &self.chunks[self.cur];
        let mut chunk: Vec<u8> = Vec::new();
        let mut j: usize = self.pos;
        while j < c.len()
            invariant
                self.pos <= j <= c@.len(),
                c@ == self.chunks@[self.cur as int]@,
                chunk@ == c@.subrange(self.pos as int, j as int),
            decreases c@.len() - j,
        {
            chunk.push(c[j]);
            assert(chunk@ =~= c@.subrange(self.pos as int, j + 1));
            j = j + 1;
        }
        proof {
            assert(chunk@ =~= self.front());
            assert(self.front().len() > 0);
        }
        chunk
    }

    fn consume(&mut self, amt: usize) {
        proof {
            if self.cur == self.chunks@.len() {
                assert(self.front() =~= Seq::<u8>::empty());
            }
        }
        if amt == 0 {
            proof {
                assert(self.front().skip(0) =~= self.front());
                assert(self.remaining().skip(0) =~= self.remaining());
            }
            return ;
        }
        proof {
            assert(self.cur < self.chunks@.len());
            assert(self.front().len() == self.chunks@[self.cur as int]@.len() - self.pos);
        }
        let clen = self.chunks[self.cur].len();
        assert(self.pos + amt <= clen);
        self.pos = self.pos + amt;
        proof {
            let c = self.chunks@[self.cur as int]@;
            assert(c.skip(self.pos as int) =~= c.skip(old(self).pos as int).skip(amt as int));
            assert(self.front() =~= old(self).front().skip(amt as int));
            assert(self.remaining() =~= old(self).remaining().skip(amt as int));
        }
    }
}

} // verus!
