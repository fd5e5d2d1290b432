//! The value of a block digest: the hashes of the blocks of a stream in
//! stream order, how they are indexed by weak hash, and how they are encoded.
use crate::rolling::weak_hash;
use crate::strong::{lemma_strong_from_own_bytes, md5_digest, strong_from};
use crate::window::frame_at;
use crate::wire::{lemma_u32_be_round_trip, u32_be_bytes, u32_from_be};
use vstd::arithmetic::div_mod::{lemma_fundamental_div_mod, lemma_fundamental_div_mod_converse};
use vstd::prelude::*;

verus! {

/// The weak and the strong hash of one block.
pub struct BlockSum {
    pub weak: u32,
    pub strong: [u8; 16],
}

/// The hashes of `block`.
pub open spec fn sum_of(block: Seq<u8>) -> BlockSum {
    BlockSum { weak: weak_hash(block), strong: md5_digest(block) }
}

/// The number of blocks in a stream of `file_size` bytes; the last one may
/// be short.
pub open spec fn block_count(file_size: nat, block_size: nat) -> nat
    recommends
        block_size > 0,
{
    ((file_size + block_size - 1) / (block_size as int)) as nat
}

/// The hashes of all blocks of `data`, in stream order.
pub open spec fn block_sums(data: Seq<u8>, block_size: nat) -> Seq<BlockSum>
    recommends
        block_size > 0,
{
    Seq::new(
        block_count(data.len(), block_size),
        |i: int| sum_of(frame_at(data, block_size, (i * block_size) as nat)),
    )
}

/// The mathematical value of a [`BlockHashes`]: the hashes of the blocks in
/// stream order, with the sizes they were made with.
pub struct DigestView {
    pub block_size: nat,
    pub file_size: nat,
    pub blocks: Seq<BlockSum>,
}

impl DigestView {
    /// The digest of `data` cut into blocks of `block_size` bytes.
    pub open spec fn of(data: Seq<u8>, block_size: nat) -> DigestView {
        DigestView { block_size, file_size: data.len(), blocks: block_sums(data, block_size) }
    }

    /// There is one entry for each block of the stream.
    pub open spec fn wf(self) -> bool {
        self.block_size > 0 && self.blocks.len() == block_count(self.file_size, self.block_size)
    }
}

impl DigestView {
    pub open spec fn encodable(self) -> bool {
        self.file_size <= u32::MAX && self.block_size <= u32::MAX
    }

    /// The stream's size and the block size, then the blocks in stream
    /// order.
    pub open spec fn encoding(self) -> Seq<u8> {
        u32_be_bytes(self.file_size as u32) + u32_be_bytes(self.block_size as u32) + sums_encoding(
            self.blocks,
            self.blocks.len(),
        )
    }

    /// The digest at the front of `bytes` and the number of bytes it takes
    /// up.  There is none if the block size is zero or the bytes end early.
    pub open spec fn parse(bytes: Seq<u8>) -> Option<(DigestView, nat)> {
        if bytes.len() < 8 {
            None
        } else {
            let file_size = u32_from_be(bytes) as nat;
            let block_size = u32_from_be(bytes.skip(4)) as nat;
            let count = block_count(file_size, block_size);
            if block_size == 0 || bytes.len() - 8 < 20 * count {
                None
            } else {
                Some(
                    (
                        DigestView {
                            block_size,
                            file_size,
                            blocks: sums_from(bytes.skip(8), count),
                        },
                        (8 + 20 * count) as nat,
                    ),
                )
            }
        }
    }
}

/// The encodings of the first `k` blocks: for each its weak hash, then the
/// sixteen bytes of its strong hash.
pub open spec fn sums_encoding(blocks: Seq<BlockSum>, k: nat) -> Seq<u8>
    decreases k,
{
    if k == 0 {
        Seq::empty()
    } else {
        sums_encoding(blocks, (k - 1) as nat) + u32_be_bytes(blocks[k - 1].weak) + blocks[k
            - 1].strong@
    }
}

/// The `count` blocks encoded one after another at the front of `bytes`.
pub open spec fn sums_from(bytes: Seq<u8>, count: nat) -> Seq<BlockSum>
    recommends
        bytes.len() >= 20 * count,
{
    Seq::new(
        count,
        |i: int|
            BlockSum {
                weak: u32_from_be(bytes.skip(20 * i)),
                strong: strong_from(bytes.skip(20 * i + 4)),
            },
    )
}

/// The entries that the index holds under `weak` for the first `k` blocks:
/// index and strong hash of each block with that weak hash, in stream order.
pub open spec fn bucket_of(blocks: Seq<BlockSum>, weak: u32, k: nat) -> Seq<(usize, [u8; 16])>
    decreases k,
{
    if k == 0 {
        Seq::empty()
    } else {
        let before = bucket_of(blocks, weak, (k - 1) as nat);
        if blocks[k - 1].weak == weak {
            before.push(((k - 1) as usize, blocks[k - 1].strong))
        } else {
            before
        }
    }
}

/// The index by weak hash that stands for `blocks`.
pub open spec fn index_of(blocks: Seq<BlockSum>) -> Map<u32, Seq<(usize, [u8; 16])>> {
    Map::new(
        |weak: u32| bucket_of(blocks, weak, blocks.len()).len() > 0,
        |weak: u32| bucket_of(blocks, weak, blocks.len()),
    )
}

/// The first block at or after `from` whose hashes are `sum`.
pub open spec fn find_block(blocks: Seq<BlockSum>, sum: BlockSum, from: nat) -> Option<nat>
    decreases blocks.len() - from,
{
    if from >= blocks.len() {
        None
    } else if blocks[from as int] == sum {
        Some(from)
    } else {
        find_block(blocks, sum, from + 1)
    }
}

/// Whether `entry` is one that a search for `strong` from block `next` on
/// accepts.
pub open spec fn accepts(entry: (usize, [u8; 16]), strong: [u8; 16], next: nat) -> bool {
    entry.1 == strong && entry.0 >= next
}

/// The first entry of a bucket that a search accepts, if there is one, in
/// the terms in which a walk along the bucket finds it.
pub open spec fn first_accepted(
    bucket: Seq<(usize, [u8; 16])>,
    strong: [u8; 16],
    next: nat,
    found: Option<usize>,
) -> bool {
    match found {
        Some(index) => exists|e: int|
            0 <= e < bucket.len() && #[trigger] bucket[e] == (index, strong) && index >= next
                && forall|k: int| 0 <= k < e ==> !accepts(#[trigger] bucket[k], strong, next),
        None => forall|k: int|
            0 <= k < bucket.len() ==> !accepts(#[trigger] bucket[k], strong, next),
    }
}

/// A count `c` of blocks is right for a size exactly when `c` blocks cover
/// the stream and `c - 1` do not.
pub proof fn lemma_block_count_is(file_size: nat, block_size: nat, c: nat)
    requires
        block_size > 0,
    ensures
        c == block_count(file_size, block_size) <==> c * block_size >= file_size && (c > 0 ==> (c
            - 1) * block_size < file_size),
{
    let b = block_size as int;
    let x = file_size + b - 1;
    lemma_fundamental_div_mod(x, b);
    let q = x / b;
    let r = x % b;
    assert(q >= 0) by (nonlinear_arith)
        requires
            x == b * q + r,
            0 <= r < b,
            x >= 0,
    ;
    assert(q * b == b * q) by (nonlinear_arith);
    assert((q - 1) * b == b * q - b) by (nonlinear_arith);
    if c * block_size >= file_size && (c > 0 ==> (c - 1) * block_size < file_size) {
        if c > 0 {
            assert((c - 1) * b == c * b - b) by (nonlinear_arith);
            lemma_fundamental_div_mod_converse(x, b, c as int, x - c * b);
        } else {
            assert(c * b == 0) by (nonlinear_arith)
                requires
                    c == 0,
            ;
            lemma_fundamental_div_mod_converse(x, b, 0, x);
        }
    }
}

/// The number of blocks, computed without adding to the size.
pub proof fn lemma_ceiling(file_size: nat, block_size: nat)
    requires
        block_size > 0,
    ensures
        block_count(file_size, block_size) == if file_size == 0 {
            0
        } else {
            (file_size - 1) / (block_size as int) + 1
        },
{
    let b = block_size as int;
    if file_size > 0 {
        lemma_fundamental_div_mod(file_size - 1, b);
        let q = (file_size - 1) / b;
        let r = (file_size - 1) % b;
        assert(q >= 0) by (nonlinear_arith)
            requires
                file_size - 1 == b * q + r,
                0 <= r < b,
                file_size - 1 >= 0,
        ;
        assert((q + 1) * b == b * q + b) by (nonlinear_arith);
        assert((q + 1 - 1) * b == b * q) by (nonlinear_arith);
        lemma_block_count_is(file_size, block_size, (q + 1) as nat);
    } else {
        lemma_block_count_is(0, block_size, 0);
    }
}

/// Entries under the first `k` blocks do not depend on the blocks after.
pub proof fn lemma_bucket_of_prefix(blocks: Seq<BlockSum>, more: Seq<BlockSum>, weak: u32, k: nat)
    requires
        k <= blocks.len(),
    ensures
        bucket_of(blocks + more, weak, k) == bucket_of(blocks, weak, k),
    decreases k,
{
    if k > 0 {
        lemma_bucket_of_prefix(blocks, more, weak, (k - 1) as nat);
    }
}

/// What a bucket holds: exactly the blocks with its weak hash, each with its
/// index and strong hash, in increasing order of index.
pub proof fn lemma_bucket_of_entries(blocks: Seq<BlockSum>, weak: u32, k: nat)
    requires
        k <= blocks.len() <= usize::MAX,
    ensures
        forall|e: int|
            0 <= e < bucket_of(blocks, weak, k).len() ==> {
                let entry = #[trigger] bucket_of(blocks, weak, k)[e];
                &&& entry.0 < k
                &&& blocks[entry.0 as int] == (BlockSum { weak, strong: entry.1 })
            },
        forall|e: int, f: int|
            0 <= e < f < bucket_of(blocks, weak, k).len() ==> (#[trigger] bucket_of(
                blocks,
                weak,
                k,
            )[e]).0 < (#[trigger] bucket_of(blocks, weak, k)[f]).0,
        forall|i: int|
            0 <= i < k && (#[trigger] blocks[i]).weak == weak ==> bucket_of(
                blocks,
                weak,
                k,
            ).contains((i as usize, blocks[i].strong)),
    decreases k,
{
    if k > 0 {
        lemma_bucket_of_entries(blocks, weak, (k - 1) as nat);
        let before = bucket_of(blocks, weak, (k - 1) as nat);
        let now = bucket_of(blocks, weak, k);
        assert forall|i: int|
            0 <= i < k && (#[trigger] blocks[i]).weak == weak implies now.contains(
            (i as usize, blocks[i].strong),
        ) by {
            if i < k - 1 {
                let e = choose|e: int|
                    0 <= e < before.len() && before[e] == (i as usize, blocks[i].strong);
                assert(now[e] == (i as usize, blocks[i].strong));
            } else {
                assert(now[now.len() - 1] == (i as usize, blocks[i].strong));
            }
        }
    }
}

/// Adding a block to the stream adds one entry to the bucket of its weak
/// hash and leaves the other buckets as they were.
pub proof fn lemma_index_of_push(blocks: Seq<BlockSum>, sum: BlockSum)
    ensures
        index_of(blocks.push(sum)) == index_of(blocks).insert(
            sum.weak,
            bucket_of(blocks, sum.weak, blocks.len()).push((blocks.len() as usize, sum.strong)),
        ),
{
    let longer = blocks.push(sum);
    assert(longer =~= blocks + seq![sum]);
    assert forall|weak: u32|
        bucket_of(longer, weak, blocks.len()) == bucket_of(blocks, weak, blocks.len()) by {
        lemma_bucket_of_prefix(blocks, seq![sum], weak, blocks.len());
    }
    assert(index_of(longer) =~= index_of(blocks).insert(
        sum.weak,
        bucket_of(blocks, sum.weak, blocks.len()).push((blocks.len() as usize, sum.strong)),
    ));
}

/// Two streams of blocks with the same index are the same stream.
pub proof fn lemma_index_of_injective(left: Seq<BlockSum>, right: Seq<BlockSum>)
    requires
        left.len() == right.len() <= usize::MAX,
        index_of(left) == index_of(right),
    ensures
        left == right,
{
    assert forall|i: int| 0 <= i < left.len() implies left[i] == right[i] by {
        let weak = left[i].weak;
        lemma_bucket_of_entries(left, weak, left.len());
        lemma_bucket_of_entries(right, weak, right.len());
        let entry = (i as usize, left[i].strong);
        assert(bucket_of(left, weak, left.len()).contains(entry));
        assert(index_of(left).contains_key(weak));
        assert(index_of(left)[weak] == index_of(right)[weak]);
        let e = choose|e: int|
            0 <= e < bucket_of(right, weak, right.len()).len() && bucket_of(
                right,
                weak,
                right.len(),
            )[e] == entry;
        assert(right[bucket_of(right, weak, right.len())[e].0 as int] == (BlockSum {
            weak,
            strong: entry.1,
        }));
    }
    assert(left =~= right);
}

/// A bucket holds an entry exactly when the block of that index has the
/// bucket's weak hash and the entry's strong hash.
pub proof fn lemma_bucket_contains(blocks: Seq<BlockSum>, index: usize, sum: BlockSum)
    requires
        blocks.len() <= usize::MAX,
    ensures
        bucket_of(blocks, sum.weak, blocks.len()).contains((index, sum.strong)) <==> index
            < blocks.len() && blocks[index as int] == sum,
{
    let held = bucket_of(blocks, sum.weak, blocks.len());
    lemma_bucket_of_entries(blocks, sum.weak, blocks.len());
    if held.contains((index, sum.strong)) {
        let e = choose|e: int| 0 <= e < held.len() && held[e] == (index, sum.strong);
        assert(blocks[held[e].0 as int] == sum);
    }
}

/// What `find_block` finds: the least index from `from` on with the hashes
/// looked for.
pub proof fn lemma_find_block_is(blocks: Seq<BlockSum>, sum: BlockSum, from: nat)
    ensures
        match find_block(blocks, sum, from) {
            Some(j) => from <= j < blocks.len() && blocks[j as int] == sum && forall|i: int|
                from <= i < j ==> blocks[i] != sum,
            None => forall|i: int| from <= i < blocks.len() ==> blocks[i] != sum,
        },
    decreases blocks.len() - from,
{
    if from < blocks.len() && blocks[from as int] != sum {
        lemma_find_block_is(blocks, sum, from + 1);
    }
}

/// The first accepted entry of the bucket of a weak hash is the first block
/// of the stream, from `next` on, with that weak hash and the strong hash
/// looked for.
pub proof fn lemma_bucket_search(
    blocks: Seq<BlockSum>,
    sum: BlockSum,
    next: nat,
    found: Option<usize>,
)
    requires
        blocks.len() <= usize::MAX,
        first_accepted(bucket_of(blocks, sum.weak, blocks.len()), sum.strong, next, found),
    ensures
        match find_block(blocks, sum, next) {
            Some(index) => found == Some(index as usize),
            None => found is None,
        },
{
    let held = bucket_of(blocks, sum.weak, blocks.len());
    lemma_bucket_of_entries(blocks, sum.weak, blocks.len());
    lemma_find_block_is(blocks, sum, next);
    match found {
        Some(index) => {
            let e = choose|e: int|
                0 <= e < held.len() && #[trigger] held[e] == (index, sum.strong) && index >= next
                    && forall|k: int| 0 <= k < e ==> !accepts(#[trigger] held[k], sum.strong, next);
            assert(blocks[held[e].0 as int] == sum);
            assert forall|i: int| next <= i < index implies blocks[i] != sum by {
                if blocks[i] == sum {
                    assert(held.contains((i as usize, blocks[i].strong)));
                    let k = choose|k: int|
                        0 <= k < held.len() && held[k] == (i as usize, blocks[i].strong);
                    if k > e {
                        assert(held[e].0 < held[k].0);
                    }
                    assert(k < e);
                    assert(accepts(held[k], sum.strong, next));
                }
            }
            match find_block(blocks, sum, next) {
                Some(j) => {
                    if j < index {
                        assert(blocks[j as int] != sum);
                    }
                    if j > index {
                        assert(blocks[index as int] != sum);
                    }
                },
                None => {
                    assert(blocks[index as int] != sum);
                },
            }
        },
        None => {
            if find_block(blocks, sum, next) is Some {
                let j = find_block(blocks, sum, next)->0 as int;
                assert(held.contains((j as usize, blocks[j].strong)));
                let k = choose|k: int|
                    0 <= k < held.len() && held[k] == (j as usize, blocks[j].strong);
                assert(accepts(held[k], sum.strong, next));
            }
        },
    }
}

/// Where each block lies in the encoding of several: twenty bytes each, the
/// weak hash in the first four and the strong hash in the other sixteen.
pub proof fn lemma_sums_encoding_layout(blocks: Seq<BlockSum>, k: nat)
    requires
        k <= blocks.len(),
    ensures
        sums_encoding(blocks, k).len() == 20 * k,
        forall|i: int|
            0 <= i < k ==> #[trigger] sums_encoding(blocks, k).subrange(20 * i, 20 * i + 4)
                == u32_be_bytes(blocks[i].weak),
        forall|i: int|
            0 <= i < k ==> #[trigger] sums_encoding(blocks, k).subrange(20 * i + 4, 20 * i + 20)
                == blocks[i].strong@,
    decreases k,
{
    if k > 0 {
        lemma_sums_encoding_layout(blocks, (k - 1) as nat);
        let before = sums_encoding(blocks, (k - 1) as nat);
        let now = sums_encoding(blocks, k);
        let weak = u32_be_bytes(blocks[k - 1].weak);
        let strong = blocks[k - 1].strong@;
        assert(now == before + weak + strong);
        assert forall|i: int| 0 <= i < k implies #[trigger] now.subrange(20 * i, 20 * i + 4)
            == u32_be_bytes(blocks[i].weak) by {
            if i < k - 1 {
                assert(now.subrange(20 * i, 20 * i + 4) =~= before.subrange(20 * i, 20 * i + 4));
            } else {
                assert(now.subrange(20 * i, 20 * i + 4) =~= weak);
            }
        }
        assert forall|i: int| 0 <= i < k implies #[trigger] now.subrange(20 * i + 4, 20 * i + 20)
            == blocks[i].strong@ by {
            if i < k - 1 {
                assert(now.subrange(20 * i + 4, 20 * i + 20) =~= before.subrange(
                    20 * i + 4,
                    20 * i + 20,
                ));
            } else {
                assert(now.subrange(20 * i + 4, 20 * i + 20) =~= strong);
            }
        }
    }
}

/// Decoding the encodings of several blocks gives the blocks back.
pub proof fn lemma_sums_round_trip(blocks: Seq<BlockSum>, rest: Seq<u8>)
    ensures
        sums_encoding(blocks, blocks.len()).len() == 20 * blocks.len(),
        sums_from(sums_encoding(blocks, blocks.len()) + rest, blocks.len()) == blocks,
{
    let all = sums_encoding(blocks, blocks.len());
    let bytes = all + rest;
    lemma_sums_encoding_layout(blocks, blocks.len());
    let got = sums_from(bytes, blocks.len());
    assert forall|i: int| 0 <= i < blocks.len() implies got[i] == blocks[i] by {
        let weak = u32_be_bytes(blocks[i].weak);
        let strong = blocks[i].strong@;
        assert(all.subrange(20 * i, 20 * i + 4) == weak);
        assert(all.subrange(20 * i + 4, 20 * i + 20) == strong);
        let after_weak = bytes.skip(20 * i + 4);
        let after_strong = bytes.skip(20 * i + 20);
        assert(bytes.skip(20 * i) =~= weak + after_weak) by {
            assert forall|j: int| 0 <= j < 4 implies bytes.skip(20 * i)[j] == weak[j] by {
                assert(all.subrange(20 * i, 20 * i + 4)[j] == all[20 * i + j]);
            }
        }
        assert(after_weak =~= strong + after_strong) by {
            assert forall|j: int| 0 <= j < 16 implies after_weak[j] == strong[j] by {
                assert(all.subrange(20 * i + 4, 20 * i + 20)[j] == all[20 * i + 4 + j]);
            }
        }
        lemma_u32_be_round_trip(blocks[i].weak, after_weak);
        lemma_strong_from_own_bytes(blocks[i].strong, after_strong);
    }
    assert(got =~= blocks);
}

/// Decoding the encoding of a digest gives the digest back, and takes up
/// exactly the encoding, whatever follows it.
pub proof fn lemma_digest_round_trip(digest: DigestView, rest: Seq<u8>)
    requires
        digest.wf(),
        digest.encodable(),
    ensures
        DigestView::parse(digest.encoding() + rest) == Some((digest, digest.encoding().len())),
{
    let a = u32_be_bytes(digest.file_size as u32);
    let b = u32_be_bytes(digest.block_size as u32);
    let c = sums_encoding(digest.blocks, digest.blocks.len());
    let bytes = a + (b + (c + rest));
    assert(digest.encoding() + rest =~= bytes);
    lemma_u32_be_round_trip(digest.file_size as u32, b + (c + rest));
    lemma_u32_be_round_trip(digest.block_size as u32, c + rest);
    lemma_sums_round_trip(digest.blocks, rest);
    assert(bytes.skip(4) =~= b + (c + rest));
    assert(bytes.skip(8) =~= c + rest);
    assert(digest.encoding().len() == 8 + c.len());
}

} // verus!
