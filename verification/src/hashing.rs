//! Block digests: the weak and strong hash of every block of a stream,
//! indexed by weak hash, and the scan that compares a newer stream with them.
use crate::diff::{Diff, Error};
use crate::digest::{
    accepts, block_count, block_sums, bucket_of, find_block, first_accepted, index_of,
    lemma_block_count_is, lemma_bucket_contains, lemma_bucket_of_entries, lemma_bucket_search,
    lemma_ceiling, lemma_find_block_is, lemma_index_of_injective, lemma_index_of_push, sum_of,
    sums_encoding, sums_from, BlockSum, DigestView,
};
use crate::rolling::{lemma_roll_tracks, lemma_tracks_hash, rolled_window, weak_hash, RollingHash};
use crate::scan::{diff_between, flush, scan};
use crate::strong::{md5_digest, same_strong, strong_from, strong_hash_of, strong_of_bytes};
use crate::window::{frame_at, Window};
use crate::wire::{put_u32, u32_be_bytes, ByteReader};
use std::collections::HashMap;
use vstd::arithmetic::div_mod::lemma_fundamental_div_mod;
use vstd::prelude::*;
use vstd::slice::slice_subrange;

verus! {

/// What a hash map of buckets holds, bucket by bucket.
pub open spec fn buckets_in(hashes: HashMap<u32, Vec<(usize, [u8; 16])>>) -> Map<
    u32,
    Seq<(usize, [u8; 16])>,
> {
    Map::new(|weak: u32| hashes@.contains_key(weak), |weak: u32| hashes@[weak]@)
}

/// Puts the entry for block `index` into the bucket of its weak hash.
fn record_block(
    hashes: &mut HashMap<u32, Vec<(usize, [u8; 16])>>,
    weak: u32,
    index: usize,
    strong: [u8; 16],
    Ghost(blocks): Ghost<Seq<BlockSum>>,
)
    requires
        index == blocks.len(),
        buckets_in(*old(hashes)) == index_of(blocks),
    ensures
        buckets_in(*final(hashes)) == index_of(blocks.push(BlockSum { weak, strong })),
{
    broadcast use vstd::std_specs::hash::group_hash_axioms;

    let mut bucket = match hashes.remove(&weak) {
        Some(bucket) => bucket,
        None => Vec::new(),
    };
    proof {
        if !index_of(blocks).contains_key(weak) {
            assert(bucket@ =~= bucket_of(blocks, weak, blocks.len()));
        } else {
            assert(bucket@ == buckets_in(*old(hashes))[weak]);
        }
    }
    bucket.push((index, strong));
    hashes.insert(weak, bucket);
    proof {
        lemma_index_of_push(blocks, BlockSum { weak, strong });
        assert(buckets_in(*hashes) =~= buckets_in(*old(hashes)).insert(weak, bucket@));
    }
}

/// An index with no block in it.
fn empty_index() -> (hashes: HashMap<u32, Vec<(usize, [u8; 16])>>)
    ensures
        buckets_in(hashes) == index_of(Seq::empty()),
{
    broadcast use vstd::std_specs::hash::group_hash_axioms;

    let hashes = HashMap::new();
    assert(buckets_in(hashes) =~= index_of(Seq::empty()));
    hashes
}

/// Whether the first `count` blocks of a stream are in `hashes`, and they are
/// the blocks that start before position `at`.
pub open spec fn recorded(
    sums: Seq<BlockSum>,
    hashes: HashMap<u32, Vec<(usize, [u8; 16])>>,
    count: usize,
    at: nat,
    block_size: nat,
) -> bool {
    &&& count <= sums.len()
    &&& buckets_in(hashes) == index_of(sums.take(count as int))
    &&& count * block_size - block_size < at <= count * block_size
}

/// Where the window starts a block, puts the block's hashes into `hashes`.
/// `known` is the strong hash of the window where the caller has it already.
fn mark_block(
    window: &Window,
    weak_hasher: &RollingHash,
    known: Option<[u8; 16]>,
    hashes: &mut HashMap<u32, Vec<(usize, [u8; 16])>>,
    index: usize,
    Ghost(sums): Ghost<Seq<BlockSum>>,
) -> (after: usize)
    requires
        window.wf(),
        window.position() < window.source().len(),
        weak_hasher@.tracks(window.spec_frame()),
        known is Some ==> known->0 == md5_digest(window.spec_frame()),
        sums == block_sums(window.source(), window.block_len()),
        recorded(sums, *old(hashes), index, window.position(), window.block_len()),
    ensures
        recorded(sums, *final(hashes), after, window.position() + 1, window.block_len()),
{
    let ghost b = window.block_len();
    let ghost at = window.position();
    let ghost len = window.source().len();
    proof {
        window.lemma_position_in_source();
        lemma_fundamental_div_mod(at as int, b as int);
    }
    if window.on_boundry() {
        let parts = window.frame();
        let strong = match known {
            Some(strong) => strong,
            None => strong_hash_of(parts.0, parts.1),
        };
        proof {
            let q = (at as int) / (b as int);
            assert(at == index * b) by (nonlinear_arith)
                requires
                    at == b * q,
                    index * b - b < at <= index * b,
                    b > 0,
            ;
            lemma_block_count_is(len, b, sums.len());
            assert(index < sums.len()) by (nonlinear_arith)
                requires
                    sums.len() * b >= len,
                    index * b < len,
                    b > 0,
            ;
            assert(index < len) by (nonlinear_arith)
                requires
                    index * b < len,
                    b > 0,
            ;
            lemma_tracks_hash(weak_hasher@, window.spec_frame());
            assert(sums[index as int] == sum_of(frame_at(window.source(), b, (index * b) as nat)));
            assert(sums.take(index + 1) =~= sums.take(index as int).push(sums[index as int]));
            assert((index + 1) * b == index * b + b) by (nonlinear_arith);
        }
        record_block(
            hashes,
            weak_hasher.get_hash(),
            index,
            strong,
            Ghost(sums.take(index as int)),
        );
        index + 1
    } else {
        proof {
            let q = (at as int) / (b as int);
            let r = (at as int) % (b as int);
            assert(at != index * b) by (nonlinear_arith)
                requires
                    at == b * q + r,
                    0 < r < b,
                    index * b - b < at,
            ;
        }
        index
    }
}

/// Moves the window and its weak hash forward by one byte, and gives the byte
/// that left the window.
fn slide(window: &mut Window, weak_hasher: &mut RollingHash) -> (tail: u8)
    requires
        old(window).wf(),
        old(window).position() < old(window).source().len(),
        old(weak_hasher)@.tracks(old(window).spec_frame()),
    ensures
        final(window).wf(),
        final(window).source() == old(window).source(),
        final(window).block_len() == old(window).block_len(),
        final(window).position() == old(window).position() + 1,
        final(weak_hasher)@.tracks(final(window).spec_frame()),
        tail == old(window).source()[old(window).position() as int],
{
    let ghost frame = window.spec_frame();
    proof {
        window.lemma_position_in_source();
    }
    let (tail, head) = window.advance();
    match tail {
        Some(tail) => {
            proof {
                lemma_roll_tracks(weak_hasher@, frame, head);
                assert(rolled_window(frame, head) =~= window.spec_frame());
            }
            weak_hasher.roll_hash(head, tail);
            tail
        },
        None => {
            proof {
                assert(false);
            }
            0
        },
    }
}

/// A digest of a stream: for each block its weak and strong hash, indexed by
/// weak hash, with the block size and the size of the stream.
#[derive(Debug, PartialEq)]
pub struct BlockHashes {
    hashes: HashMap<u32, Vec<(usize, [u8; 16])>>,
    block_size: usize,
    file_size: usize,
}

impl View for BlockHashes {
    type V = DigestView;

    closed spec fn view(&self) -> DigestView {
        DigestView {
            block_size: self.block_size as nat,
            file_size: self.file_size as nat,
            blocks: choose|blocks: Seq<BlockSum>| self.holds(blocks),
        }
    }
}

impl BlockHashes {
    /// Whether the index is that of `blocks`, one for each block of the
    /// stream.
    spec fn holds(&self, blocks: Seq<BlockSum>) -> bool {
        &&& blocks.len() == block_count(self.file_size as nat, self.block_size as nat)
        &&& buckets_in(self.hashes) == index_of(blocks)
    }

    /// The block size is positive and the index holds every block of the
    /// stream exactly once.
    pub closed spec fn wf(&self) -> bool {
        self.block_size > 0 && self.holds(self@.blocks)
    }

    proof fn lemma_holds(&self, blocks: Seq<BlockSum>)
        requires
            self.block_size > 0,
            self.holds(blocks),
        ensures
            self.wf(),
            self@.blocks == blocks,
            self@.wf(),
    {
        lemma_block_count_is(self.file_size as nat, self.block_size as nat, blocks.len());
        assert(blocks.len() <= self.file_size) by (nonlinear_arith)
            requires
                blocks.len() > 0 ==> (blocks.len() - 1) * self.block_size < self.file_size,
                self.block_size > 0,
        ;
        lemma_index_of_injective(self@.blocks, blocks);
    }

    proof fn lemma_blocks_fit(&self)
        requires
            self.wf(),
        ensures
            self@.blocks.len() <= self.file_size,
            self@.blocks.len() > 0 ==> (self@.blocks.len() - 1) * self.block_size < self.file_size,
            self@.blocks.len() * self.block_size >= self.file_size,
    {
        let blocks = self@.blocks;
        lemma_block_count_is(self.file_size as nat, self.block_size as nat, blocks.len());
        assert(blocks.len() <= self.file_size) by (nonlinear_arith)
            requires
                blocks.len() > 0 ==> (blocks.len() - 1) * self.block_size < self.file_size,
                self.block_size > 0,
        ;
    }

    /// The digest of the stream `data_source`, cut into blocks of
    /// `block_size` bytes.
    pub fn new(data_source: &[u8], block_size: usize) -> (digest: BlockHashes)
        requires
            block_size > 0,
        ensures
            digest.wf(),
            digest@ == DigestView::of(data_source@, block_size as nat),
    {
        broadcast use vstd::std_specs::hash::group_hash_axioms;

        let mut hashes: HashMap<u32, Vec<(usize, [u8; 16])>> = HashMap::new();
        let mut block_index: usize = 0;
        let mut total_size: usize = 0;
        let ghost sums = block_sums(data_source@, block_size as nat);
        let empty = slice_subrange(data_source, 0, 0);
        proof {
            assert(buckets_in(hashes) =~= index_of(sums.take(0)));
            lemma_block_count_is(0, block_size as nat, 0);
            lemma_block_count_is(data_source@.len(), block_size as nat, sums.len());
        }
        while total_size < data_source.len()
            invariant
                block_size > 0,
                empty@.len() == 0,
                sums == block_sums(data_source@, block_size as nat),
                total_size <= data_source@.len(),
                total_size < data_source@.len() ==> total_size == block_index * block_size,
                block_index == block_count(total_size as nat, block_size as nat),
                block_index <= sums.len(),
                buckets_in(hashes) == index_of(sums.take(block_index as int)),
            decreases data_source@.len() - total_size,
        {
            let left = data_source.len() - total_size;
            let read_size = if block_size <= left {
                block_size
            } else {
                left
            };
            let block = slice_subrange(data_source, total_size, total_size + read_size);
            let weak = RollingHash::hash_buffer(block);
            let strong = strong_hash_of(block, empty);
            proof {
                let b = block_size as nat;
                let here = total_size as nat;
                let after = (total_size + read_size) as nat;
                let i = block_index as nat;
                lemma_block_count_is(here, b, i);
                assert((i + 1) * b == i * b + b) by (nonlinear_arith);
                assert((i + 1 - 1) * b == i * b) by (nonlinear_arith);
                lemma_block_count_is(after, b, i + 1);
                lemma_block_count_is(data_source@.len(), b, sums.len());
                assert(i < sums.len()) by (nonlinear_arith)
                    requires
                        sums.len() * b >= data_source@.len(),
                        i * b < data_source@.len(),
                        b > 0,
                ;
                assert(i < data_source@.len()) by (nonlinear_arith)
                    requires
                        i * b < data_source@.len(),
                        b > 0,
                ;
                assert(block@ + empty@ =~= frame_at(data_source@, b, (i * b) as nat));
                assert(sums[i as int] == sum_of(frame_at(data_source@, b, (i * b) as nat)));
                assert(sums.take(block_index + 1) =~= sums.take(block_index as int).push(
                    BlockSum { weak, strong },
                ));
            }
            record_block(
                &mut hashes,
                weak,
                block_index,
                strong,
                Ghost(sums.take(block_index as int)),
            );
            block_index = block_index + 1;
            total_size = total_size + read_size;
        }
        let digest = BlockHashes { hashes, block_size, file_size: total_size };
        proof {
            assert(sums.take(block_index as int) =~= sums);
            digest.lemma_holds(sums);
        }
        digest
    }

    /// The digest of an empty stream.
    pub fn empty(block_size: usize) -> (digest: BlockHashes)
        requires
            block_size > 0,
        ensures
            digest.wf(),
            digest@ == DigestView::of(Seq::empty(), block_size as nat),
    {
        broadcast use vstd::std_specs::hash::group_hash_axioms;

        let digest = BlockHashes { hashes: HashMap::new(), block_size, file_size: 0 };
        proof {
            let sums = block_sums(Seq::empty(), block_size as nat);
            lemma_block_count_is(0, block_size as nat, 0);
            assert(buckets_in(digest.hashes) =~= index_of(sums));
            digest.lemma_holds(sums);
        }
        digest
    }

    /// Looks in `bucket` for the first entry with the strong hash `strong`
    /// and an index of at least `next`.
    fn hash_match(bucket: &Vec<(usize, [u8; 16])>, strong: &[u8; 16], next: usize) -> (found:
        Option<usize>)
        ensures
            first_accepted(bucket@, *strong, next as nat, found),
    {
        let mut e: usize = 0;
        while e < bucket.len()
            invariant
                e <= bucket@.len(),
                forall|k: int| 0 <= k < e ==> !accepts(#[trigger] bucket@[k], *strong, next as nat),
            decreases bucket@.len() - e,
        {
            let entry = &bucket[e];
            if entry.0 >= next && same_strong(&entry.1, strong) {
                assert(bucket@[e as int] == (entry.0, *strong));
                return Some(entry.0);
            }
            e = e + 1;
        }
        None
    }

    /// Checks whether the window made up of `front` and `back`, whose weak
    /// hash is `weak`, has the hashes of a block at or after `next`.  Gives
    /// the index of the first such block, and the strong hash of the window.
    fn check_match(&self, weak: u32, front: &[u8], back: &[u8], next: usize) -> (found: Option<
        (usize, [u8; 16]),
    >)
        requires
            self.wf(),
            weak == weak_hash(front@ + back@),
        ensures
            match find_block(self@.blocks, sum_of(front@ + back@), next as nat) {
                Some(index) => found == Some((index as usize, md5_digest(front@ + back@))),
                None => found is None,
            },
    {
        broadcast use vstd::std_specs::hash::group_hash_axioms;

        let ghost blocks = self@.blocks;
        let ghost sum = sum_of(front@ + back@);
        let ghost held = bucket_of(blocks, weak, blocks.len());
        proof {
            self.lemma_blocks_fit();
        }
        match self.hashes.get(&weak) {
            None => {
                proof {
                    assert(!buckets_in(self.hashes).contains_key(weak));
                    assert(held.len() == 0);
                    lemma_bucket_search(blocks, sum, next as nat, None);
                }
                None
            },
            Some(bucket) => {
                proof {
                    assert(buckets_in(self.hashes).contains_key(weak));
                    assert(bucket@ == buckets_in(self.hashes)[weak]);
                    assert(bucket@ == held);
                }
                let strong = strong_hash_of(front, back);
                let found = Self::hash_match(bucket, &strong, next);
                proof {
                    lemma_bucket_search(blocks, sum, next as nat, found);
                }
                match found {
                    Some(index) => Some((index, strong)),
                    None => None,
                }
            },
        }
    }

    /// Compares the stream `new_data` with the stream that this digest was
    /// made of, and makes this the digest of `new_data`.  The script that is
    /// returned holds the bytes of `new_data` that match no old block as
    /// inserts, and the old blocks that the scan passed over as deletes.
    pub fn diff_and_update(&mut self, new_data: &[u8]) -> (diff: Diff)
        requires
            old(self).wf(),
        ensures
            final(self).wf(),
            final(self)@ == DigestView::of(new_data@, old(self)@.block_size),
            diff@ == diff_between(old(self)@, new_data@),
            diff@.wf(),
    {
        let ghost old_view = self@;
        let ghost new = new_data@;
        let ghost b = self.block_size as nat;
        let ghost sums = block_sums(new, b);
        proof {
            self.lemma_blocks_fit();
        }
        let mut diffs = Diff::new();
        let mut window = Window::new(new_data, self.block_size);
        let first = window.frame();
        assert(first.0@ =~= window.spec_frame()) by {
            assert((first.0@ + first.1@).len() == first.0@.len() + first.1@.len());
            assert(first.1@.len() == 0);
        }
        let mut weak_hasher = RollingHash::new(first.0);
        let mut next: usize = 0;
        let mut insert_buffer: Vec<u8> = Vec::new();
        let mut new_hashes = empty_index();
        let mut current_block_index: usize = 0;
        proof {
            assert(sums.take(0) =~= Seq::empty());
            assert(insert_buffer@ =~= new.subrange(0, 0));
        }
        while window.frame_size() > 0
            invariant
                self.wf(),
                self@ == old_view,
                old_view.wf(),
                self.block_size == b,
                old_view.block_size == b,
                old_view.file_size == self.file_size,
                old_view.blocks.len() <= self.file_size,
                old_view.blocks.len() > 0 ==> (old_view.blocks.len() - 1) * b < self.file_size,
                new == new_data@,
                sums == block_sums(new, b),
                window.wf(),
                window.source() == new,
                window.block_len() == b,
                window.position() <= new.len(),
                weak_hasher@.tracks(window.spec_frame()),
                insert_buffer@.len() <= window.position(),
                insert_buffer@ == new.subrange(
                    window.position() - insert_buffer@.len(),
                    window.position() as int,
                ),
                diff_between(old_view, new) == scan(
                    old_view,
                    new,
                    window.position(),
                    next as nat,
                    (window.position() - insert_buffer@.len()) as nat,
                    diffs@,
                ),
                diffs@.wf(),
                diffs@.admits_insert((window.position() - insert_buffer@.len()) as nat),
                diffs@.deletes.len() > 0 ==> diffs@.deletes.last().position < window.position(),
                next <= old_view.blocks.len(),
                recorded(sums, new_hashes, current_block_index, window.position(), b),
            decreases new.len() - window.position(),
        {
            let ghost at = window.position();
            let ghost pending = (at - insert_buffer@.len()) as nat;
            let ghost frame = window.spec_frame();
            let ghost before = diffs@;
            let parts = window.frame();
            let found = self.check_match(weak_hasher.get_hash(), parts.0, parts.1, next);
            proof {
                lemma_tracks_hash(weak_hasher@, frame);
                lemma_find_block_is(old_view.blocks, sum_of(frame), next as nat);
            }
            match found {
                Some((other_block_index, strong)) => {
                    if insert_buffer.len() > 0 {
                        let position = window.get_bytes_read() - insert_buffer.len();
                        let mut data: Vec<u8> = Vec::new();
                        core::mem::swap(&mut data, &mut insert_buffer);
                        diffs.add_insert(position, data);
                    }
                    assert(diffs@ == flush(before, new, pending, at));
                    if other_block_index > next {
                        assert(b * (other_block_index - next) <= (old_view.blocks.len() - 1) * b)
                            by (nonlinear_arith)
                            requires
                                next <= other_block_index < old_view.blocks.len(),
                                b > 0,
                        ;
                        assert(b * (other_block_index - next) > 0) by (nonlinear_arith)
                            requires
                                next < other_block_index,
                                b > 0,
                        ;
                        diffs.add_delete(
                            window.get_bytes_read(),
                            self.block_size * (other_block_index - next),
                        );
                    }
                    next = other_block_index + 1;
                    let mut i: usize = 0;
                    while i < self.block_size && window.frame_size() > 0
                        invariant
                            self.block_size == b,
                            b > 0,
                            i <= b,
                            new == new_data@,
                            sums == block_sums(new, b),
                            window.wf(),
                            window.source() == new,
                            window.block_len() == b,
                            window.position() == at + i,
                            at < new.len(),
                            window.position() <= new.len(),
                            i == 0 ==> strong == md5_digest(window.spec_frame()),
                            weak_hasher@.tracks(window.spec_frame()),
                            recorded(sums, new_hashes, current_block_index, window.position(), b),
                        decreases b - i,
                    {
                        let known = if i == 0 {
                            Some(strong)
                        } else {
                            None
                        };
                        current_block_index =
                        mark_block(
                            &window,
                            &weak_hasher,
                            known,
                            &mut new_hashes,
                            current_block_index,
                            Ghost(sums),
                        );
                        slide(&mut window, &mut weak_hasher);
                        i = i + 1;
                    }
                    proof {
                        assert(window.position() == at + frame.len());
                        assert(insert_buffer@ =~= new.subrange(
                            window.position() as int,
                            window.position() as int,
                        ));
                    }
                },
                None => {
                    current_block_index =
                    mark_block(
                        &window,
                        &weak_hasher,
                        None,
                        &mut new_hashes,
                        current_block_index,
                        Ghost(sums),
                    );
                    let tail = slide(&mut window, &mut weak_hasher);
                    insert_buffer.push(tail);
                    proof {
                        assert(insert_buffer@ =~= new.subrange(pending as int, at as int + 1));
                    }
                },
            }
        }
        let ghost at = window.position();
        let ghost pending = (at - insert_buffer@.len()) as nat;
        assert(at == new.len());
        if insert_buffer.len() > 0 {
            let position = window.get_bytes_read() - insert_buffer.len();
            diffs.add_insert(position, insert_buffer);
        }
        let old_block_count = if self.file_size == 0 {
            0
        } else {
            (self.file_size - 1) / self.block_size + 1
        };
        proof {
            let fs = self.file_size as int;
            if fs > 0 {
                lemma_fundamental_div_mod(fs - 1, b as int);
                let q = (fs - 1) / (b as int);
                assert(q >= 0) by (nonlinear_arith)
                    requires
                        fs - 1 == b * q + (fs - 1) % (b as int),
                        0 <= (fs - 1) % (b as int) < b,
                        fs - 1 >= 0,
                ;
                assert((q + 1) * b == b * q + b) by (nonlinear_arith);
                assert((q + 1 - 1) * b == b * q) by (nonlinear_arith);
                lemma_block_count_is(fs as nat, b, (q + 1) as nat);
            } else {
                lemma_block_count_is(0, b, 0);
            }
            assert(old_block_count == old_view.blocks.len());
        }
        if next < old_block_count {
            assert(next * b <= (old_view.blocks.len() - 1) * b) by (nonlinear_arith)
                requires
                    next < old_view.blocks.len(),
                    b > 0,
            ;
            diffs.add_delete(window.get_bytes_read(), self.file_size - next * self.block_size);
        }
        self.hashes = new_hashes;
        self.file_size = window.get_bytes_read();
        proof {
            assert((current_block_index - 1) * b == current_block_index * b - b)
                by (nonlinear_arith);
            lemma_block_count_is(new.len(), b, current_block_index as nat);
            assert(sums.take(current_block_index as int) =~= sums);
            self.lemma_holds(sums);
        }
        diffs
    }

    /// Whether `bucket` holds the entry for block `index` with the strong
    /// hash `strong`.
    fn bucket_contains(bucket: &Vec<(usize, [u8; 16])>, index: usize, strong: &[u8; 16]) -> (held:
        bool)
        ensures
            held <==> bucket@.contains((index, *strong)),
    {
        let mut e: usize = 0;
        while e < bucket.len()
            invariant
                e <= bucket@.len(),
                forall|k: int| 0 <= k < e ==> bucket@[k] != (index, *strong),
            decreases bucket@.len() - e,
        {
            let entry = &bucket[e];
            if entry.0 == index && same_strong(&entry.1, strong) {
                assert(bucket@[e as int] == (index, *strong));
                return true;
            }
            e = e + 1;
        }
        false
    }

    /// Whether `data_source` is the stream that this digest was made of, as
    /// far as the hashes tell: it has the same size, and each of its blocks
    /// has the hashes that the digest holds for that block.
    pub fn verify_unchanged(&self, data_source: &[u8]) -> (unchanged: bool)
        requires
            self.wf(),
        ensures
            unchanged <==> self@ == DigestView::of(data_source@, self@.block_size),
    {
        broadcast use vstd::std_specs::hash::group_hash_axioms;

        let ghost blocks = self@.blocks;
        let ghost b = self.block_size as nat;
        let ghost sums = block_sums(data_source@, b);
        let mut block_index: usize = 0;
        let mut total_size: usize = 0;
        let empty = slice_subrange(data_source, 0, 0);
        proof {
            self.lemma_blocks_fit();
            lemma_block_count_is(0, b, 0);
        }
        while total_size < data_source.len()
            invariant
                self.wf(),
                blocks == self@.blocks,
                blocks.len() <= usize::MAX,
                b == self.block_size,
                b > 0,
                empty@.len() == 0,
                sums == block_sums(data_source@, b),
                total_size <= data_source@.len(),
                total_size < data_source@.len() ==> total_size == block_index * b,
                block_index == block_count(total_size as nat, b),
                block_index <= sums.len(),
                forall|k: int|
                    0 <= k < block_index ==> k < blocks.len() && blocks[k] == #[trigger] sums[k],
            decreases data_source@.len() - total_size,
        {
            let left = data_source.len() - total_size;
            let read_size = if self.block_size <= left {
                self.block_size
            } else {
                left
            };
            let block = slice_subrange(data_source, total_size, total_size + read_size);
            let weak = RollingHash::hash_buffer(block);
            proof {
                let here = total_size as nat;
                let after = (total_size + read_size) as nat;
                let i = block_index as nat;
                lemma_block_count_is(here, b, i);
                assert((i + 1) * b == i * b + b) by (nonlinear_arith);
                assert((i + 1 - 1) * b == i * b) by (nonlinear_arith);
                lemma_block_count_is(after, b, i + 1);
                lemma_block_count_is(data_source@.len(), b, sums.len());
                assert(i < sums.len()) by (nonlinear_arith)
                    requires
                        sums.len() * b >= data_source@.len(),
                        i * b < data_source@.len(),
                        b > 0,
                ;
                assert(i < data_source@.len()) by (nonlinear_arith)
                    requires
                        i * b < data_source@.len(),
                        b > 0,
                ;
                assert(block@ + empty@ =~= frame_at(data_source@, b, (i * b) as nat));
                assert(block@ =~= block@ + empty@);
                assert(sums[i as int] == sum_of(block@));
                lemma_bucket_contains(blocks, block_index, sums[i as int]);
            }
            match self.hashes.get(&weak) {
                None => {
                    assert(!buckets_in(self.hashes).contains_key(weak));
                    assert(bucket_of(blocks, weak, blocks.len()).len() == 0);
                    return false;
                },
                Some(bucket) => {
                    assert(buckets_in(self.hashes).contains_key(weak));
                    assert(bucket@ == buckets_in(self.hashes)[weak]);
                    let strong = strong_hash_of(block, empty);
                    if !Self::bucket_contains(bucket, block_index, &strong) {
                        return false;
                    }
                },
            }
            block_index = block_index + 1;
            total_size = total_size + read_size;
        }
        proof {
            lemma_block_count_is(data_source@.len(), b, sums.len());
            if total_size == self.file_size {
                assert(blocks =~= sums);
            }
        }
        total_size == self.file_size
    }

    /// The hashes of all blocks in stream order, gathered from the buckets.
    fn sequential_hashes(&self) -> (sequential: Vec<(u32, [u8; 16])>)
        requires
            self.wf(),
        ensures
            sequential@.len() == self@.blocks.len(),
            forall|i: int|
                0 <= i < sequential@.len() ==> (BlockSum {
                    weak: (#[trigger] sequential@[i]).0,
                    strong: sequential@[i].1,
                }) == self@.blocks[i],
    {
        broadcast use vstd::std_specs::hash::group_hash_axioms;

        let ghost blocks = self@.blocks;
        proof {
            self.lemma_blocks_fit();
        }
        let block_count = if self.file_size == 0 {
            0
        } else {
            (self.file_size - 1) / self.block_size + 1
        };
        proof {
            lemma_ceiling(self.file_size as nat, self.block_size as nat);
        }
        let mut sequential: Vec<(u32, [u8; 16])> = Vec::new();
        let mut i: usize = 0;
        while i < block_count
            invariant
                i <= block_count,
                sequential@.len() == i,
            decreases block_count - i,
        {
            sequential.push((0u32, [0u8; 16]));
            i = i + 1;
        }
        let ghost mut placed: Set<int> = Set::empty();
        let ghost mut seen: Set<u32> = Set::empty();
        for pair in it: self.hashes.iter()
            invariant
                self.wf(),
                blocks == self@.blocks,
                blocks.len() <= usize::MAX,
                sequential@.len() == blocks.len(),
                forall|p: int|
                    0 <= p < it.seq().len() ==> self.hashes@.contains_key(
                        *(#[trigger] it.seq()[p]).0,
                    ) && self.hashes@[*it.seq()[p].0] == *it.seq()[p].1,
                forall|i: int| #[trigger]
                    placed.contains(i) ==> 0 <= i < blocks.len() && blocks[i] == (BlockSum {
                        weak: sequential@[i].0,
                        strong: sequential@[i].1,
                    }),
                forall|k: u32| #[trigger]
                    self.hashes@.contains_key(k) ==> seen.contains(k) || exists|p: int|
                        it.index() <= p < it.seq().len() && *(#[trigger] it.seq()[p]).0 == k,
                forall|k: u32, e: int|
                    seen.contains(k) && 0 <= e < bucket_of(blocks, k, blocks.len()).len()
                        ==> placed.contains(
                        (#[trigger] bucket_of(blocks, k, blocks.len())[e]).0 as int,
                    ),
        {
            let weak = *pair.0;
            let bucket = pair.1;
            proof {
                assert(buckets_in(self.hashes).contains_key(weak));
                assert(bucket@ == buckets_in(self.hashes)[weak]);
                lemma_bucket_of_entries(blocks, weak, blocks.len());
            }
            let ghost before = placed;
            let mut e: usize = 0;
            while e < bucket.len()
                invariant
                    e <= bucket@.len(),
                    bucket@ == bucket_of(blocks, weak, blocks.len()),
                    blocks.len() <= usize::MAX,
                    sequential@.len() == blocks.len(),
                    forall|k: int|
                        0 <= k < bucket@.len() ==> {
                            let entry = #[trigger] bucket@[k];
                            &&& entry.0 < blocks.len()
                            &&& blocks[entry.0 as int] == (BlockSum { weak, strong: entry.1 })
                        },
                    forall|i: int| #[trigger]
                        placed.contains(i) ==> 0 <= i < blocks.len() && blocks[i] == (BlockSum {
                            weak: sequential@[i].0,
                            strong: sequential@[i].1,
                        }),
                    forall|k: int| 0 <= k < e ==> placed.contains((#[trigger] bucket@[k]).0 as int),
                    forall|i: int| before.contains(i) ==> placed.contains(i),
                decreases bucket@.len() - e,
            {
                let entry = &bucket[e];
                sequential[entry.0] = (weak, entry.1);
                proof {
                    placed = placed.insert(entry.0 as int);
                }
                e = e + 1;
            }
            proof {
                seen = seen.insert(weak);
            }
        }
        proof {
            assert forall|i: int| 0 <= i < sequential@.len() implies (BlockSum {
                weak: (#[trigger] sequential@[i]).0,
                strong: sequential@[i].1,
            }) == blocks[i] by {
                let weak = blocks[i].weak;
                lemma_bucket_contains(blocks, i as usize, blocks[i]);
                let held = bucket_of(blocks, weak, blocks.len());
                assert(buckets_in(self.hashes).contains_key(weak));
                assert(self.hashes@.contains_key(weak));
                assert(seen.contains(weak));
                let e = choose|e: int|
                    0 <= e < held.len() && held[e] == (i as usize, blocks[i].strong);
                assert(placed.contains(held[e].0 as int));
            }
        }
        sequential
    }

    /// Appends the encoding of this digest to `writer`.  Fails, writing
    /// nothing, if the stream's size or the block size does not fit in 32
    /// bits.
    pub fn compress_to(&self, writer: &mut Vec<u8>) -> (r: Result<(), Error>)
        requires
            self.wf(),
        ensures
            self@.encodable() ==> r is Ok && final(writer)@ == old(writer)@ + self@.encoding(),
            !self@.encodable() ==> r is Err && r->Err_0 == Error::Encode && final(writer)@ == old(
                writer,
            )@,
    {
        if self.file_size > u32::MAX as usize || self.block_size > u32::MAX as usize {
            return Err(Error::Encode);
        }
        let ghost blocks = self@.blocks;
        let ghost head = writer@ + u32_be_bytes(self.file_size as u32) + u32_be_bytes(
            self.block_size as u32,
        );
        put_u32(writer, self.file_size as u32);
        put_u32(writer, self.block_size as u32);
        let sequential = self.sequential_hashes();
        let mut i: usize = 0;
        while i < sequential.len()
            invariant
                i <= sequential@.len(),
                sequential@.len() == blocks.len(),
                forall|k: int|
                    0 <= k < sequential@.len() ==> (BlockSum {
                        weak: (#[trigger] sequential@[k]).0,
                        strong: sequential@[k].1,
                    }) == blocks[k],
                writer@ == head + sums_encoding(blocks, i as nat),
            decreases sequential@.len() - i,
        {
            let entry = &sequential[i];
            put_u32(writer, entry.0);
            writer.extend_from_slice(entry.1.as_slice());
            i = i + 1;
        }
        assert(writer@ =~= old(writer)@ + self@.encoding());
        Ok(())
    }

    /// Reads one digest from `reader`.  Fails if the block size is zero or
    /// the input ends before the digest is complete.
    pub fn expand_from(reader: &mut ByteReader) -> (r: Result<BlockHashes, Error>)
        ensures
            match DigestView::parse(old(reader).remaining()) {
                Some((digest, used)) => r is Ok && r->Ok_0.wf() && r->Ok_0@ == digest
                    && final(reader).remaining() == old(reader).remaining().skip(used as int),
                None => r is Err && r->Err_0 == Error::Decode,
            },
    {
        let ghost bytes = reader.remaining();
        if reader.remaining_len() < 8 {
            return Err(Error::Decode);
        }
        let file_size = match reader.read_u32() {
            Some(n) => n as usize,
            None => {
                return Err(Error::Decode);
            },
        };
        let block_size = match reader.read_u32() {
            Some(n) => n as usize,
            None => {
                return Err(Error::Decode);
            },
        };
        if block_size == 0 {
            return Err(Error::Decode);
        }
        let block_count = if file_size == 0 {
            0
        } else {
            (file_size - 1) / block_size + 1
        };
        let ghost body = reader.remaining();
        proof {
            lemma_ceiling(file_size as nat, block_size as nat);
            assert(body =~= bytes.skip(8));
        }
        if reader.remaining_len() / 20 < block_count {
            return Err(Error::Decode);
        }
        let ghost sums = sums_from(body, block_count as nat);
        let mut hashes = empty_index();
        let mut i: usize = 0;
        proof {
            assert(sums.take(0) =~= Seq::empty());
        }
        while i < block_count
            invariant
                i <= block_count,
                body.len() >= 20 * block_count,
                sums == sums_from(body, block_count as nat),
                reader.remaining() == body.skip(20 * i),
                buckets_in(hashes) == index_of(sums.take(i as int)),
            decreases block_count - i,
        {
            let ghost here = reader.remaining();
            let weak = match reader.read_u32() {
                Some(n) => n,
                None => {
                    return Err(Error::Decode);
                },
            };
            let strong = match reader.read_exact(16) {
                Some(bytes) => strong_of_bytes(&bytes),
                None => {
                    return Err(Error::Decode);
                },
            };
            proof {
                assert(reader.remaining() =~= body.skip(20 * (i + 1)));
                let stored = strong_from(body.skip(20 * i + 4));
                assert(strong@ =~= stored@);
                assert(strong =~= stored);
                assert(sums.take(i + 1) =~= sums.take(i as int).push(BlockSum { weak, strong }));
            }
            record_block(&mut hashes, weak, i, strong, Ghost(sums.take(i as int)));
            i = i + 1;
        }
        let digest = BlockHashes { hashes, block_size, file_size };
        proof {
            assert(sums.take(i as int) =~= sums);
            digest.lemma_holds(sums);
            assert(reader.remaining() =~= bytes.skip(8 + 20 * block_count));
        }
        Ok(digest)
    }
}

} // verus!
