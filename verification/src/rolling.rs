//! The weak hash of a window of bytes, and how it rolls forward by one byte.
use vstd::arithmetic::div_mod::{
    lemma_add_mod_noop, lemma_mod_multiples_vanish, lemma_mul_mod_noop_right, lemma_small_mod,
    lemma_sub_mod_noop, lemma_sub_mod_noop_right,
};
use vstd::prelude::*;

verus! {

/// The sum of the bytes of `s`.
pub open spec fn byte_sum(s: Seq<u8>) -> int
    decreases s.len(),
{
    if s.len() == 0 {
        0
    } else {
        s[0] + byte_sum(s.drop_first())
    }
}

/// The sum of the bytes of `s`, each weighted by its distance from the end:
/// the first byte counts `s.len()` times, the last one once.
pub open spec fn weighted_sum(s: Seq<u8>) -> int
    decreases s.len(),
{
    if s.len() == 0 {
        0
    } else {
        s.len() * s[0] + weighted_sum(s.drop_first())
    }
}

/// The weak hash of `s`: the weighted sum modulo 2^16 in the upper half, the
/// plain sum modulo 2^16 in the lower half.
pub open spec fn weak_hash(s: Seq<u8>) -> u32 {
    ((weighted_sum(s) % 0x1_0000) * 0x1_0000 + byte_sum(s) % 0x1_0000) as u32
}

/// Appending a byte adds it to the plain sum, and adds the new plain sum to
/// the weighted sum.
pub proof fn lemma_sums_push(s: Seq<u8>, y: u8)
    ensures
        byte_sum(s.push(y)) == byte_sum(s) + y,
        weighted_sum(s.push(y)) == weighted_sum(s) + byte_sum(s) + y,
    decreases s.len(),
{
    let t = s.push(y);
    if s.len() == 0 {
        assert(t.drop_first() =~= Seq::<u8>::empty());
        assert(byte_sum(t.drop_first()) == 0);
        assert(weighted_sum(t.drop_first()) == 0);
    } else {
        lemma_sums_push(s.drop_first(), y);
        assert(t.drop_first() =~= s.drop_first().push(y));
        assert(t.len() * t[0] == s.len() * s[0] + s[0]) by (nonlinear_arith)
            requires
                t.len() == s.len() + 1,
                t[0] == s[0],
        ;
    }
}

/// The sums are never negative.
pub proof fn lemma_sums_nonnegative(s: Seq<u8>)
    ensures
        byte_sum(s) >= 0,
        weighted_sum(s) >= 0,
    decreases s.len(),
{
    if s.len() > 0 {
        lemma_sums_nonnegative(s.drop_first());
        assert(s.len() * s[0] >= 0) by (nonlinear_arith)
            requires
                s.len() >= 0,
                s[0] >= 0,
        ;
    }
}

/// The mathematical value of a [`RollingHash`]: both sums modulo 2^16, and
/// the length of the window.
pub struct RollingHashView {
    pub a: nat,
    pub b: nat,
    pub len: nat,
}

impl RollingHashView {
    /// The 32-bit hash: `b` in the upper half, `a` in the lower.
    pub open spec fn hash(self) -> nat {
        self.b * 0x1_0000 + self.a
    }

    /// Whether this is the state of a hash over the window `w`.
    pub open spec fn tracks(self, w: Seq<u8>) -> bool {
        &&& self.a == byte_sum(w) % 0x1_0000
        &&& self.b == weighted_sum(w) % 0x1_0000
        &&& self.len == w.len()
    }

    /// The state after `old_byte` has left the window and `new_byte`, if
    /// there is one, has entered it.  Without a new byte the window shrinks.
    pub open spec fn roll(self, new_byte: Option<u8>, old_byte: u8) -> RollingHashView {
        match new_byte {
            Some(y) => {
                let a = (self.a - old_byte + y) % 0x1_0000;
                RollingHashView {
                    a: a as nat,
                    b: ((self.b - self.len * old_byte + a) % 0x1_0000) as nat,
                    len: self.len,
                }
            },
            None => RollingHashView {
                a: ((self.a - old_byte) % 0x1_0000) as nat,
                b: ((self.b - self.len * old_byte) % 0x1_0000) as nat,
                len: (self.len - 1) as nat,
            },
        }
    }
}

/// The window that follows `w` when its first byte leaves and `new_byte`, if
/// there is one, enters at the end.
pub open spec fn rolled_window(w: Seq<u8>, new_byte: Option<u8>) -> Seq<u8> {
    match new_byte {
        Some(y) => w.drop_first().push(y),
        None => w.drop_first(),
    }
}

/// A state that tracks a window has that window's weak hash.
pub proof fn lemma_tracks_hash(v: RollingHashView, w: Seq<u8>)
    requires
        v.tracks(w),
    ensures
        v.hash() == weak_hash(w),
{
    assert(v.b * 0x1_0000 + v.a < 0x1_0000_0000);
}

/// The rolling hash law: rolling a state that tracks a window, with the
/// window's first byte as the byte that leaves, gives a state that tracks
/// the window moved on by one byte.  Its hash is the weak hash of that window
/// computed afresh.
pub proof fn lemma_roll_tracks(v: RollingHashView, w: Seq<u8>, new_byte: Option<u8>)
    requires
        v.tracks(w),
        w.len() > 0,
    ensures
        v.roll(new_byte, w[0]).tracks(rolled_window(w, new_byte)),
        v.roll(new_byte, w[0]).hash() == weak_hash(rolled_window(w, new_byte)),
{
    let m = 0x1_0000int;
    let x = w[0];
    let t = w.drop_first();
    let n = w.len() as int;
    let sa = byte_sum(w);
    let sb = weighted_sum(w);
    assert(byte_sum(t) == sa - x);
    assert(weighted_sum(t) == sb - n * x);
    lemma_sums_nonnegative(t);
    match new_byte {
        Some(y) => {
            lemma_sums_push(t, y);
            let a2 = (v.a - x + y) % m;
            assert(a2 == (sa - x + y) % m) by {
                lemma_sub_mod_noop(sa, x - y, m);
                lemma_sub_mod_noop(sa % m, x - y, m);
                lemma_small_mod(v.a, m as nat);
            }
            assert((v.b - n * x + a2) % m == (sb - n * x + (sa - x + y)) % m) by {
                lemma_add_mod_noop(sb - n * x, sa - x + y, m);
                lemma_add_mod_noop(v.b - n * x, a2, m);
                lemma_sub_mod_noop(sb, n * x, m);
                lemma_sub_mod_noop(v.b as int, n * x, m);
                lemma_small_mod(v.b, m as nat);
                lemma_small_mod(a2 as nat, m as nat);
            }
        },
        None => {
            assert((v.a - x) % m == (sa - x) % m) by {
                lemma_sub_mod_noop(sa, x as int, m);
                lemma_sub_mod_noop(v.a as int, x as int, m);
                lemma_small_mod(v.a, m as nat);
            }
            assert((v.b - n * x) % m == (sb - n * x) % m) by {
                lemma_sub_mod_noop(sb, n * x, m);
                lemma_sub_mod_noop(v.b as int, n * x, m);
                lemma_small_mod(v.b, m as nat);
            }
        },
    }
    lemma_tracks_hash(v.roll(new_byte, w[0]), rolled_window(w, new_byte));
}

/// A weak hash that can be moved along a stream one byte at a time.
pub struct RollingHash {
    a: u16,
    b: u16,
    block_size: usize,
}

impl View for RollingHash {
    type V = RollingHashView;

    closed spec fn view(&self) -> RollingHashView {
        RollingHashView { a: self.a as nat, b: self.b as nat, len: self.block_size as nat }
    }
}

impl RollingHash {
    /// A rolling hash over the bytes of `initial_data`, which make up the
    /// first window.
    pub fn new(initial_data: &[u8]) -> (hash: RollingHash)
        ensures
            hash@.tracks(initial_data@),
    {
        let mut a: u16 = 0;
        let mut b: u16 = 0;
        let mut block_size: usize = 0;
        while block_size < initial_data.len()
            invariant
                block_size <= initial_data@.len(),
                a == byte_sum(initial_data@.take(block_size as int)) % 0x1_0000,
                b == weighted_sum(initial_data@.take(block_size as int)) % 0x1_0000,
            decreases initial_data@.len() - block_size,
        {
            let byte = initial_data[block_size];
            proof {
                let s = initial_data@.take(block_size as int);
                assert(initial_data@.take(block_size + 1) =~= s.push(byte));
                lemma_sums_push(s, byte);
                lemma_add_mod_noop(byte_sum(s), byte as int, 0x1_0000);
                lemma_add_mod_noop(weighted_sum(s), byte_sum(s) + byte, 0x1_0000);
                lemma_small_mod(byte as nat, 0x1_0000);
                lemma_mod_multiples_vanish(-1, a + byte, 0x1_0000);
                lemma_sums_nonnegative(s);
                lemma_sums_nonnegative(s.push(byte));
            }
            a = a.wrapping_add(byte as u16);
            proof {
                let s = initial_data@.take(block_size as int);
                assert(a == (byte_sum(s) + byte) % 0x1_0000);
                lemma_mod_multiples_vanish(-1, b + a, 0x1_0000);
                lemma_small_mod(a as nat, 0x1_0000);
            }
            b = b.wrapping_add(a);
            block_size = block_size + 1;
        }
        assert(initial_data@.take(block_size as int) =~= initial_data@);
        RollingHash { a, b, block_size }
    }

    /// The hash as it currently stands.
    pub fn get_hash(&self) -> (hash: u32)
        ensures
            hash == self@.hash(),
    {
        (self.b as u32) * 0x1_0000 + (self.a as u32)
    }

    /// Rolls the hash forward by one byte: `old_byte` leaves the window and
    /// `new_byte`, if there is one, enters it.  Without a new byte the window
    /// shrinks by one, so it must not be empty.
    pub fn roll_hash(&mut self, new_byte: Option<u8>, old_byte: u8)
        requires
            new_byte is None ==> old(self)@.len > 0,
        ensures
            final(self)@ == old(self)@.roll(new_byte, old_byte),
    {
        let ghost m = 0x1_0000int;
        let ghost n = self.block_size as int;
        let ghost a0 = self.a as int;
        let ghost b0 = self.b as int;
        let x = old_byte as u16;
        let len16 = (self.block_size % 0x1_0000) as u16;
        let step = x.wrapping_mul(len16);
        proof {
            assert(step == (n * old_byte) % m) by {
                lemma_mul_mod_noop_right(old_byte as int, n, m);
                assert(x as nat * len16 as nat == old_byte as int * (n % m));
                assert(old_byte as int * n == n * old_byte) by (nonlinear_arith);
            }
            assert((a0 - old_byte) % m == if a0 - x < 0 {
                a0 - x + m
            } else {
                a0 - x
            }) by {
                lemma_mod_multiples_vanish(1, a0 - x, m);
                if a0 - x < 0 {
                    lemma_small_mod((a0 - x + m) as nat, m as nat);
                } else {
                    lemma_small_mod((a0 - x) as nat, m as nat);
                }
            }
            assert((b0 - n * old_byte) % m == if b0 - step < 0 {
                b0 - step + m
            } else {
                b0 - step
            }) by {
                lemma_sub_mod_noop_right(b0, n * old_byte, m);
                lemma_mod_multiples_vanish(1, b0 - step, m);
                if b0 - step < 0 {
                    lemma_small_mod((b0 - step + m) as nat, m as nat);
                } else {
                    lemma_small_mod((b0 - step) as nat, m as nat);
                }
            }
        }
        self.a = self.a.wrapping_sub(x);
        self.b = self.b.wrapping_sub(step);
        match new_byte {
            Some(byte) => {
                let ghost a1 = self.a as int;
                let ghost b1 = self.b as int;
                proof {
                    assert((a0 - old_byte + byte) % m == if a1 + byte >= m {
                        a1 + byte - m
                    } else {
                        a1 + byte
                    }) by {
                        lemma_add_mod_noop(a0 - old_byte, byte as int, m);
                        lemma_small_mod(byte as nat, m as nat);
                        lemma_mod_multiples_vanish(-1, a1 + byte, m);
                        if a1 + byte >= m {
                            lemma_small_mod((a1 + byte - m) as nat, m as nat);
                        } else {
                            lemma_small_mod((a1 + byte) as nat, m as nat);
                        }
                    }
                }
                self.a = self.a.wrapping_add(byte as u16);
                let ghost a2 = self.a as int;
                proof {
                    assert((b0 - n * old_byte + a2) % m == if b1 + a2 >= m {
                        b1 + a2 - m
                    } else {
                        b1 + a2
                    }) by {
                        lemma_add_mod_noop(b0 - n * old_byte, a2, m);
                        lemma_small_mod(a2 as nat, m as nat);
                        lemma_mod_multiples_vanish(-1, b1 + a2, m);
                        if b1 + a2 >= m {
                            lemma_small_mod((b1 + a2 - m) as nat, m as nat);
                        } else {
                            lemma_small_mod((b1 + a2) as nat, m as nat);
                        }
                    }
                }
                self.b = self.b.wrapping_add(self.a);
            },
            None => {
                self.block_size = self.block_size - 1;
            },
        }
    }

    /// The weak hash of `buffer`.
    pub fn hash_buffer(buffer: &[u8]) -> (hash: u32)
        ensures
            hash == weak_hash(buffer@),
    {
        let state = RollingHash::new(buffer);
        proof {
            lemma_tracks_hash(state@, buffer@);
        }
        state.get_hash()
    }
}

} // verus!
