//! Big-endian integers and a cursor over encoded bytes.
use byteorder::{ByteOrder, NetworkEndian};
use vstd::prelude::*;
use vstd::slice::slice_subrange;

verus! {

/// The four bytes of `n`, most significant first.
pub open spec fn u32_be_bytes(n: u32) -> Seq<u8> {
    seq![
        (n / 0x100_0000) as u8,
        ((n / 0x1_0000) % 0x100) as u8,
        ((n / 0x100) % 0x100) as u8,
        (n % 0x100) as u8,
    ]
}

/// The number whose big-endian bytes are the first four of `b`.
pub open spec fn u32_from_be(b: Seq<u8>) -> u32
    recommends
        b.len() >= 4,
{
    (b[0] * 0x100_0000 + b[1] * 0x1_0000 + b[2] * 0x100 + b[3]) as u32
}

/// Reading back the bytes written for `n` gives `n`, whatever follows them.
pub proof fn lemma_u32_be_round_trip(n: u32, rest: Seq<u8>)
    ensures
        u32_be_bytes(n).len() == 4,
        u32_from_be(u32_be_bytes(n) + rest) == n,
{
    let b = u32_be_bytes(n) + rest;
    assert(b[0] == u32_be_bytes(n)[0]);
    assert(b[1] == u32_be_bytes(n)[1]);
    assert(b[2] == u32_be_bytes(n)[2]);
    assert(b[3] == u32_be_bytes(n)[3]);
}

/// Calls `byteorder::NetworkEndian::write_u32` on a fresh four-byte buffer.
/// The buffer then holds `n` in big-endian order.
#[verifier::external_body]
pub(crate) fn be_bytes_of(n: u32) -> (buf: [u8; 4])
    ensures
        buf@ == u32_be_bytes(n),
{
    let mut buf = [0u8; 4];
    NetworkEndian::write_u32(&mut buf, n);
    buf
}

/// Calls `byteorder::NetworkEndian::read_u32`, which reads the first four
/// bytes of `buf` as a big-endian number and panics on a shorter buffer.
#[verifier::external_body]
pub(crate) fn be_value_of(buf: &[u8]) -> (n: u32)
    requires
        buf@.len() >= 4,
    ensures
        n == u32_from_be(buf@),
{
    NetworkEndian::read_u32(buf)
}

/// Appends `n` to `writer` as four big-endian bytes.
pub fn put_u32(writer: &mut Vec<u8>, n: u32)
    ensures
        final(writer)@ == old(writer)@ + u32_be_bytes(n),
{
    let buf = be_bytes_of(n);
    writer.extend_from_slice(buf.as_slice());
}

/// A cursor over a byte slice; reads consume bytes from the front.
pub struct ByteReader<'a> {
    bytes: &'a [u8],
    at: usize,
}

impl<'a> ByteReader<'a> {
    #[verifier::type_invariant]
    spec fn inv(self) -> bool {
        self.at <= self.bytes@.len()
    }

    /// The bytes that have not been read yet.
    pub closed spec fn remaining(&self) -> Seq<u8> {
        self.bytes@.skip(self.at as int)
    }

    /// A reader positioned at the start of `bytes`.
    pub fn new(bytes: &'a [u8]) -> (reader: Self)
        ensures
            reader.remaining() == bytes@,
    {
        ByteReader { bytes, at: 0 }
    }

    /// The number of bytes left to read.
    pub fn remaining_len(&self) -> (n: usize)
        ensures
            n == self.remaining().len(),
    {
        proof {
            use_type_invariant(self);
        }
        self.bytes.len() - self.at
    }

    /// Reads a big-endian `u32`; `None`, consuming nothing, if fewer than four
    /// bytes are left.
    pub fn read_u32(&mut self) -> (r: Option<u32>)
        ensures
            old(self).remaining().len() >= 4 ==> r == Some(u32_from_be(old(self).remaining()))
                && final(self).remaining() == old(self).remaining().skip(4),
            old(self).remaining().len() < 4 ==> r is None && final(self).remaining() == old(
                self,
            ).remaining(),
    {
        proof {
            use_type_invariant(&*self);
        }
        if self.bytes.len() - self.at < 4 {
            return None;
        }
        let word = slice_subrange(self.bytes, self.at, self.at + 4);
        let n = be_value_of(word);
        proof {
            let rem = self.remaining();
            assert(word@[0] == rem[0] && word@[1] == rem[1] && word@[2] == rem[2] && word@[3]
                == rem[3]);
            assert(rem.skip(4) =~= self.bytes@.skip(self.at + 4));
        }
        self.at = self.at + 4;
        Some(n)
    }

    /// Reads exactly `n` bytes; `None`, consuming nothing, if fewer are left.
    pub fn read_exact(&mut self, n: usize) -> (r: Option<Vec<u8>>)
        ensures
            old(self).remaining().len() >= n ==> r is Some && r->0@ == old(self).remaining().take(
                n as int,
            ) && final(self).remaining() == old(self).remaining().skip(n as int),
            old(self).remaining().len() < n ==> r is None && final(self).remaining() == old(
                self,
            ).remaining(),
    {
        proof {
            use_type_invariant(&*self);
        }
        if self.bytes.len() - self.at < n {
            return None;
        }
        let part = slice_subrange(self.bytes, self.at, self.at + n);
        let mut out: Vec<u8> = Vec::new();
        out.extend_from_slice(part);
        proof {
            let rem = self.remaining();
            assert(out@ =~= rem.take(n as int));
            assert(rem.skip(n as int) =~= self.bytes@.skip(self.at + n));
        }
        self.at = self.at + n;
        Some(out)
    }
}

} // verus!
