//! A sliding window over a byte stream, buffered as two adjacent blocks.
use vstd::arithmetic::div_mod::{
    lemma_fundamental_div_mod, lemma_fundamental_div_mod_converse, lemma_small_mod,
};
use vstd::prelude::*;
use vstd::slice::slice_subrange;

verus! {

/// The window of at most `block` bytes that starts at `at` in `data`.
pub open spec fn frame_at(data: Seq<u8>, block: nat, at: nat) -> Seq<u8>
    recommends
        at <= data.len(),
{
    data.subrange(
        at as int,
        if at + block <= data.len() {
            (at + block) as int
        } else {
            data.len() as int
        },
    )
}

/// The end of the buffered block in which position `at` lies: positions
/// `1..=block` lie in the first block, and position 0 with them.
pub open spec fn block_end_at(data: Seq<u8>, block: nat, at: nat) -> nat
    recommends
        block > 0,
{
    let start = if at == 0 {
        0
    } else {
        ((at - 1) / block as int) * block
    };
    if start + block <= data.len() {
        (start + block) as nat
    } else {
        data.len()
    }
}

/// A sliding window over a stream of bytes.  It keeps two adjacent blocks of
/// the stream and moves forward one byte at a time.
pub struct Window<'a> {
    front: Vec<u8>,
    back: Vec<u8>,
    block_size: usize,
    offset: usize,
    bytes_read: usize,
    reader: &'a [u8],
    taken: usize,
}

impl<'a> Window<'a> {
    /// The whole stream that the window slides over.
    pub closed spec fn source(&self) -> Seq<u8> {
        self.reader@
    }

    /// The size of a block, which is the size of a full window.
    pub closed spec fn block_len(&self) -> nat {
        self.block_size as nat
    }

    /// The position in the stream at which the window starts.
    pub closed spec fn position(&self) -> nat {
        self.bytes_read as nat
    }

    /// The buffers hold the two blocks of the stream around the position.
    pub closed spec fn wf(&self) -> bool {
        self.buffered() && (self.bytes_read > 0 ==> self.offset > 0)
    }

    spec fn buffered(&self) -> bool {
        let base = self.bytes_read - self.offset;
        let len = self.reader@.len();
        &&& self.block_size > 0
        &&& len <= usize::MAX
        &&& self.offset <= self.front@.len()
        &&& self.offset <= self.bytes_read
        &&& base % (self.block_size as int) == 0
        &&& self.taken == base + self.front@.len() + self.back@.len()
        &&& self.taken <= len
        &&& self.front@ == self.reader@.subrange(base, base + self.front@.len())
        &&& self.back@ == self.reader@.subrange(base + self.front@.len(), self.taken as int)
        &&& self.front@.len() == if base + self.block_size <= len {
            self.block_size as int
        } else {
            len - base
        }
        &&& self.back@.len() == if self.taken - self.back@.len() + self.block_size <= len {
            self.block_size as int
        } else {
            len - (self.taken - self.back@.len())
        }
    }

    /// The bytes in the window: up to a block's worth from the position on.
    pub open spec fn spec_frame(&self) -> Seq<u8> {
        frame_at(self.source(), self.block_len(), self.position())
    }

    /// Whether the window starts at a block boundary or at the stream's end.
    pub open spec fn spec_on_boundary(&self) -> bool {
        self.position() % self.block_len() == 0 || self.position() == self.source().len()
    }

    /// The position never passes the end of the stream.
    pub proof fn lemma_position_in_source(&self)
        requires
            self.wf(),
        ensures
            self.position() <= self.source().len() <= usize::MAX,
            self.block_len() > 0,
    {
    }

    proof fn lemma_base(&self)
        requires
            self.wf(),
        ensures
            self.bytes_read > 0 ==> self.bytes_read - self.offset == ((self.bytes_read - 1) / (
            self.block_size as int)) * self.block_size,
            self.bytes_read == 0 ==> self.offset == 0,
            block_end_at(self.source(), self.block_len(), self.position()) == self.bytes_read
                - self.offset + self.front@.len(),
            self.offset < self.block_size ==> (self.bytes_read as int) % (self.block_size as int)
                == self.offset,
            self.offset == self.block_size ==> (self.bytes_read as int) % (self.block_size as int) == 0,
    {
        let b = self.block_size as int;
        let base = self.bytes_read - self.offset;
        lemma_fundamental_div_mod(base, b);
        let q = base / b;
        assert(base == q * b) by (nonlinear_arith)
            requires
                base == b * q + 0,
        ;
        if self.bytes_read > 0 {
            lemma_fundamental_div_mod_converse(self.bytes_read - 1, b, q, self.offset - 1);
        }
        if self.offset < self.block_size {
            lemma_fundamental_div_mod_converse(self.bytes_read as int, b, q, self.offset as int);
        } else {
            assert(self.bytes_read == (q + 1) * b + 0) by (nonlinear_arith)
                requires
                    self.bytes_read == q * b + b,
            ;
            lemma_fundamental_div_mod_converse(self.bytes_read as int, b, q + 1, 0);
        }
    }

    fn read_block(reader: &[u8], taken: usize, block_size: usize) -> (block: Vec<u8>)
        requires
            taken <= reader@.len(),
        ensures
            taken + block@.len() <= reader@.len() <= usize::MAX,
            block@.len() == if taken + block_size <= reader@.len() {
                block_size as int
            } else {
                reader@.len() - taken
            },
            block@ == reader@.subrange(taken as int, taken + block@.len()),
    {
        let left = reader.len() - taken;
        let size = if block_size <= left {
            block_size
        } else {
            left
        };
        let mut block: Vec<u8> = Vec::new();
        block.extend_from_slice(slice_subrange(reader, taken, taken + size));
        assert(block@ =~= reader@.subrange(taken as int, taken + size));
        block
    }

    /// A window at the start of `reader`, with the first two blocks buffered.
    pub fn new(reader: &'a [u8], block_size: usize) -> (window: Window<'a>)
        requires
            block_size > 0,
        ensures
            window.wf(),
            window.source() == reader@,
            window.block_len() == block_size,
            window.position() == 0,
    {
        let front = Self::read_block(reader, 0, block_size);
        let back = Self::read_block(reader, front.len(), block_size);
        let taken = front.len() + back.len();
        proof {
            lemma_small_mod(0, block_size as nat);
        }
        Window { front, back, block_size, offset: 0, bytes_read: 0, reader, taken }
    }

    /// Moves the window forward by one byte.  Returns the byte that leaves
    /// the window at its start and the byte that enters it at its end, as far
    /// as there is one.  At the end of the stream nothing moves.
    pub fn advance(&mut self) -> (moved: (Option<u8>, Option<u8>))
        requires
            old(self).wf(),
        ensures
            final(self).wf(),
            final(self).source() == old(self).source(),
            final(self).block_len() == old(self).block_len(),
            old(self).position() < old(self).source().len() ==> {
                &&& final(self).position() == old(self).position() + 1
                &&& moved.0 == Some(old(self).source()[old(self).position() as int])
                &&& moved.1 == if old(self).position() + old(self).block_len() < old(
                    self,
                ).source().len() {
                    Some(old(self).source()[(old(self).position() + old(self).block_len()) as int])
                } else {
                    None
                }
            },
            old(self).position() >= old(self).source().len() ==> {
                &&& final(self).position() == old(self).position()
                &&& moved == (None::<u8>, None::<u8>)
            },
    {
        if self.front.len() == 0 {
            return (None, None);
        }
        if self.offset >= self.front.len() {
            if self.back.len() == 0 {
                return (None, None);
            }
            self.load_next_block();
        }
        let tail = self.front[self.offset];
        let head = self.get_head();
        self.offset = self.offset + 1;
        self.bytes_read = self.bytes_read + 1;
        proof {
            let b = self.block_size as int;
            let base = self.bytes_read - self.offset;
            assert(base % b == 0);
        }
        (Some(tail), head)
    }

    fn get_head(&self) -> (head: Option<u8>)
        requires
            self.buffered(),
            self.offset < self.front@.len(),
        ensures
            head == if self.position() + self.block_len() < self.source().len() {
                Some(self.source()[(self.position() + self.block_len()) as int])
            } else {
                None
            },
    {
        let head_index = self.offset + (self.block_size - self.front.len());
        if head_index >= self.back.len() {
            return None;
        }
        Some(self.back[head_index])
    }

    fn load_next_block(&mut self)
        requires
            old(self).wf(),
            old(self).offset == old(self).front@.len(),
            old(self).back@.len() > 0,
        ensures
            final(self).buffered(),
            final(self).reader == old(self).reader,
            final(self).block_size == old(self).block_size,
            final(self).bytes_read == old(self).bytes_read,
            final(self).offset == 0,
            final(self).front@.len() > 0,
    {
        proof {
            self.lemma_base();
        }
        let mut next = Self::read_block(self.reader, self.taken, self.block_size);
        let added = next.len();
        core::mem::swap(&mut self.back, &mut next);
        core::mem::swap(&mut self.front, &mut next);
        self.taken = self.taken + added;
        self.offset = 0;
    }

    /// The two slices that together make up the window: what is left of the
    /// block in which the position lies, then the start of the block after.
    pub fn frame(&self) -> (parts: (&[u8], &[u8]))
        requires
            self.wf(),
        ensures
            parts.0@ + parts.1@ == self.spec_frame(),
            parts.0@.len() == block_end_at(self.source(), self.block_len(), self.position())
                - self.position(),
    {
        proof {
            self.lemma_base();
        }
        let back_offset = if self.offset <= self.back.len() {
            self.offset
        } else {
            self.back.len()
        };
        let first = slice_subrange(self.front.as_slice(), self.offset, self.front.len());
        let second = slice_subrange(self.back.as_slice(), 0, back_offset);
        assert(first@ + second@ =~= self.spec_frame());
        (first, second)
    }

    /// The number of bytes in the window.
    pub fn frame_size(&self) -> (size: usize)
        requires
            self.wf(),
        ensures
            size == self.spec_frame().len(),
    {
        let back_offset = if self.offset <= self.back.len() {
            self.offset
        } else {
            self.back.len()
        };
        self.front.len() - self.offset + back_offset
    }

    /// Whether the window starts at a block boundary or at the stream's end.
    pub fn on_boundry(&self) -> (boundary: bool)
        requires
            self.wf(),
        ensures
            boundary == self.spec_on_boundary(),
    {
        proof {
            self.lemma_base();
        }
        self.offset == 0 || self.offset == self.front.len()
    }

    /// The number of bytes that the window has moved over.
    pub fn get_bytes_read(&self) -> (position: usize)
        ensures
            position == self.position(),
    {
        self.bytes_read
    }
}

} // verus!
