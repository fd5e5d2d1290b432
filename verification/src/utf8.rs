//! Characters and their UTF-8 bytes.
use vstd::prelude::*;
use vstd::utf8::{encode_scalar, encode_utf8};

verus! {

/// The characters of `s`, one by one.
pub fn chars_of(s: &str) -> (chars: Vec<char>)
    ensures
        chars@ == s@,
{
    let mut chars: Vec<char> = Vec::new();
    for c in it: s.chars()
        invariant
            it.seq() == s@,
            chars@ == s@.take(it.index() as int),
    {
        chars.push(c);
        assert(s@.take(it.index() + 1) =~= s@.take(it.index() as int).push(c));
    }
    assert(s@.take(s@.len() as int) =~= s@);
    chars
}

/// The number of bytes in the UTF-8 encoding of `chars`.
pub open spec fn byte_len(chars: Seq<char>) -> nat {
    encode_utf8(chars).len()
}

/// The encoding of a string with one more character is the encoding of the
/// string, then that of the character.
pub proof fn lemma_encode_push(chars: Seq<char>, c: char)
    ensures
        encode_utf8(chars.push(c)) == encode_utf8(chars) + encode_scalar(c as u32),
    decreases chars.len(),
{
    let longer = chars.push(c);
    if chars.len() == 0 {
        assert(longer.drop_first() =~= Seq::<char>::empty());
        assert(encode_utf8(longer.drop_first()) =~= Seq::<u8>::empty());
        assert(encode_utf8(chars) =~= Seq::<u8>::empty());
        assert(longer[0] == c);
        assert(encode_utf8(longer) == encode_scalar(c as u32) + encode_utf8(longer.drop_first()));
        assert(encode_utf8(longer) =~= encode_utf8(chars) + encode_scalar(c as u32));
    } else {
        lemma_encode_push(chars.drop_first(), c);
        assert(longer.drop_first() =~= chars.drop_first().push(c));
        assert(encode_utf8(longer) =~= encode_utf8(chars) + encode_scalar(c as u32));
    }
}

/// The encoding of two strings joined is their encodings joined.
pub proof fn lemma_encode_concat(left: Seq<char>, right: Seq<char>)
    ensures
        encode_utf8(left + right) == encode_utf8(left) + encode_utf8(right),
        byte_len(left + right) == byte_len(left) + byte_len(right),
    decreases right.len(),
{
    if right.len() == 0 {
        assert(left + right =~= left);
        assert(encode_utf8(left) + encode_utf8(right) =~= encode_utf8(left));
    } else {
        let init = right.drop_last();
        lemma_encode_concat(left, init);
        lemma_encode_push(left + init, right.last());
        lemma_encode_push(init, right.last());
        assert(init.push(right.last()) =~= right);
        assert((left + init).push(right.last()) =~= left + right);
        assert(encode_utf8(left + right) =~= encode_utf8(left) + encode_utf8(right));
    }
}

/// A character takes between one and four bytes.
pub proof fn lemma_byte_len_bounds(chars: Seq<char>)
    ensures
        chars.len() <= byte_len(chars) <= 4 * chars.len(),
    decreases chars.len(),
{
    if chars.len() > 0 {
        lemma_byte_len_bounds(chars.drop_first());
    }
}

/// Calls `char::encode_utf8` on a four-byte buffer and copies out the bytes
/// that it filled: the UTF-8 encoding of `c`.
#[verifier::external_body]
pub(crate) fn utf8_of(c: char) -> (bytes: Vec<u8>)
    ensures
        bytes@ == encode_scalar(c as u32),
{
    let mut buf = [0u8; 4];
    c.encode_utf8(&mut buf).as_bytes().to_vec()
}

/// Calls `char::len_utf8`, the number of bytes that `c` takes in UTF-8.
#[verifier::external_body]
pub(crate) fn utf8_len_of(c: char) -> (len: usize)
    ensures
        len == encode_scalar(c as u32).len(),
{
    c.len_utf8()
}

/// The UTF-8 encoding of `chars`.
pub fn utf8_bytes(chars: &[char]) -> (bytes: Vec<u8>)
    ensures
        bytes@ == encode_utf8(chars@),
{
    let mut bytes: Vec<u8> = Vec::new();
    let mut i: usize = 0;
    while i < chars.len()
        invariant
            i <= chars@.len(),
            bytes@ == encode_utf8(chars@.take(i as int)),
        decreases chars@.len() - i,
    {
        let mut more = utf8_of(chars[i]);
        proof {
            lemma_encode_push(chars@.take(i as int), chars@[i as int]);
            assert(chars@.take(i + 1) =~= chars@.take(i as int).push(chars@[i as int]));
        }
        bytes.append(&mut more);
        i = i + 1;
    }
    assert(chars@.take(i as int) =~= chars@);
    bytes
}

/// The number of bytes in the UTF-8 encoding of `chars`.
pub fn utf8_len(chars: &[char]) -> (len: usize)
    requires
        byte_len(chars@) <= usize::MAX,
    ensures
        len == byte_len(chars@),
{
    let mut len: usize = 0;
    let mut i: usize = 0;
    while i < chars.len()
        invariant
            i <= chars@.len(),
            len == byte_len(chars@.take(i as int)),
            byte_len(chars@) <= usize::MAX,
        decreases chars@.len() - i,
    {
        let more = utf8_len_of(chars[i]);
        proof {
            lemma_encode_push(chars@.take(i as int), chars@[i as int]);
            assert(chars@.take(i + 1) =~= chars@.take(i as int).push(chars@[i as int]));
            lemma_encode_concat(chars@.take(i + 1), chars@.skip(i + 1));
            assert(chars@.take(i + 1) + chars@.skip(i + 1) =~= chars@);
        }
        len = len + more;
        i = i + 1;
    }
    assert(chars@.take(i as int) =~= chars@);
    len
}

/// The bytes of a string are those before a position, those of the character
/// at it, and those after it.
pub proof fn lemma_encode_around(s: Seq<char>, p: int)
    requires
        0 <= p < s.len(),
    ensures
        encode_utf8(s) == encode_utf8(s.take(p)) + encode_scalar(s[p] as u32) + encode_utf8(
            s.skip(p + 1),
        ),
        byte_len(s) == byte_len(s.take(p)) + encode_scalar(s[p] as u32).len() + byte_len(
            s.skip(p + 1),
        ),
{
    lemma_encode_push(s.take(p), s[p]);
    lemma_encode_concat(s.take(p).push(s[p]), s.skip(p + 1));
    assert(s.take(p).push(s[p]) + s.skip(p + 1) =~= s);
}

/// The bytes of a string of one character are those of the character.
pub proof fn lemma_encode_single(s: Seq<char>)
    requires
        s.len() == 1,
    ensures
        encode_utf8(s) == encode_scalar(s[0] as u32),
        1 <= byte_len(s) <= 4,
{
    lemma_byte_len_bounds(s);
    lemma_encode_push(Seq::<char>::empty(), s[0]);
    assert(Seq::<char>::empty().push(s[0]) =~= s);
    assert(encode_utf8(Seq::<char>::empty()) =~= Seq::<u8>::empty());
    assert(Seq::<u8>::empty() + encode_scalar(s[0] as u32) =~= encode_scalar(s[0] as u32));
}

} // verus!
