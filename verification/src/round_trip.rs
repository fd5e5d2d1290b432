//! When the script of a scan turns the old stream into the new one.
//!
//! The scan places its inserts by their position in the new stream, while a
//! script is applied with the inserts first.  The two agree as long as no
//! old block has been passed over before an insert; and a window must match
//! an old block only where they hold the same bytes.
use crate::alignment::{
    lemma_cut_sound, lemma_keep_sound, lemma_put_sound, lemma_sound_applies, lemma_start_sound,
    Alignment,
};
use crate::digest::{
    block_count, find_block, lemma_block_count_is, lemma_find_block_is, sum_of, DigestView,
};
use crate::scan::{diff_between, finish, flush, scan};
use crate::window::frame_at;
use vstd::prelude::*;

verus! {

/// The window of the new stream at `at`.
pub open spec fn new_frame(new: Seq<u8>, block_size: nat, at: int) -> Seq<u8> {
    frame_at(new, block_size, at as nat)
}

/// Block `index` of the old stream.
pub open spec fn old_block(old: Seq<u8>, block_size: nat, index: int) -> Seq<u8> {
    frame_at(old, block_size, (index * block_size) as nat)
}

/// Whether a window of the new stream has the hashes of a block of the old
/// stream only where the two hold the same bytes.
pub open spec fn no_false_match(old: Seq<u8>, new: Seq<u8>, block_size: nat) -> bool {
    forall|at: int, index: int|
        #![trigger new_frame(new, block_size, at), old_block(old, block_size, index)]
        0 <= at < new.len() && 0 <= index < block_count(old.len(), block_size) && sum_of(
            new_frame(new, block_size, at),
        ) == sum_of(old_block(old, block_size, index)) ==> new_frame(new, block_size, at)
            == old_block(old, block_size, index)
}

/// Whether the scan, from this state on, inserts bytes only as long as it
/// has passed over no old block.  `cut` says whether it has done so before.
pub open spec fn inserts_before_deletes(
    old: DigestView,
    new: Seq<u8>,
    at: nat,
    next: nat,
    pending: nat,
    cut: bool,
) -> bool
    decreases new.len() - at,
{
    if at >= new.len() || old.block_size == 0 {
        pending < new.len() ==> !cut
    } else {
        let frame = frame_at(new, old.block_size, at);
        match find_block(old.blocks, sum_of(frame), next) {
            Some(found) => {
                let end = at + frame.len();
                &&& pending < at ==> !cut
                &&& inserts_before_deletes(old, new, end, found + 1, end, cut || found > next)
            },
            None => inserts_before_deletes(old, new, at + 1, next, pending, cut),
        }
    }
}

/// The part of the old stream that lies in the blocks before `next`.
pub open spec fn old_before(old: Seq<u8>, block_size: nat, next: nat) -> Seq<u8> {
    if next * block_size <= old.len() {
        old.take((next * block_size) as int)
    } else {
        old
    }
}

/// The script of the rest of a scan, started from a sound alignment of what
/// the scan has dealt with, turns the old stream into the new one.
proof fn lemma_scan_alignment(
    old: Seq<u8>,
    new: Seq<u8>,
    b: nat,
    at: nat,
    next: nat,
    pending: nat,
    cut: bool,
    a: Alignment,
)
    requires
        b > 0,
        no_false_match(old, new, b),
        pending <= at <= new.len(),
        next <= block_count(old.len(), b),
        a.sound(),
        a.new == new.take(pending as int),
        a.old == old_before(old, b, next),
        !cut ==> a.mid.len() == a.new.len(),
        inserts_before_deletes(DigestView::of(old, b), new, at, next, pending, cut),
    ensures
        scan(DigestView::of(old, b), new, at, next, pending, a.diff).apply(old) == Some(new),
    decreases new.len() - at,
{
    let d = DigestView::of(old, b);
    let count = block_count(old.len(), b);
    lemma_block_count_is(old.len(), b, count);
    if at >= new.len() {
        let a1 = if pending < new.len() {
            lemma_put_sound(a, new.subrange(pending as int, new.len() as int));
            a.put(new.subrange(pending as int, new.len() as int))
        } else {
            a
        };
        assert(a1.diff == flush(a.diff, new, pending, new.len()));
        assert(a1.new =~= new);
        let a2 = if next < count {
            assert(next * b <= (count - 1) * b) by (nonlinear_arith)
                requires
                    next <= count - 1,
                    b > 0,
            ;
            lemma_cut_sound(a1, old.skip((next * b) as int));
            a1.cut(old.skip((next * b) as int))
        } else {
            a1
        };
        assert(a2.diff == finish(d, new, next, pending, a.diff));
        assert(a2.old =~= old);
        lemma_sound_applies(a2);
    } else {
        let frame = frame_at(new, b, at);
        lemma_find_block_is(d.blocks, sum_of(frame), next);
        match find_block(d.blocks, sum_of(frame), next) {
            Some(found) => {
                let end = at + frame.len();
                assert(found * b <= (count - 1) * b) by (nonlinear_arith)
                    requires
                        found <= count - 1,
                        b > 0,
                ;
                assert(next * b <= found * b) by (nonlinear_arith)
                    requires
                        next <= found,
                        b > 0,
                ;
                assert((found + 1) * b == found * b + b) by (nonlinear_arith);
                assert(b * ((found - next) as nat) == found * b - next * b) by (nonlinear_arith)
                    requires
                        next <= found,
                ;
                assert(d.blocks[found as int] == sum_of(old_block(old, b, found as int)));
                assert(new_frame(new, b, at as int) == old_block(old, b, found as int));
                let a1 = if pending < at {
                    lemma_put_sound(a, new.subrange(pending as int, at as int));
                    a.put(new.subrange(pending as int, at as int))
                } else {
                    a
                };
                assert(a1.diff == flush(a.diff, new, pending, at));
                assert(a1.new =~= new.take(at as int));
                let skipped = old.subrange((next * b) as int, (found * b) as int);
                let a2 = if found > next {
                    lemma_cut_sound(a1, skipped);
                    a1.cut(skipped)
                } else {
                    a1
                };
                assert(a2.old =~= old.take((found * b) as int));
                lemma_keep_sound(a2, frame);
                let a3 = a2.keep(frame);
                assert(a3.old =~= old_before(old, b, found + 1));
                assert(a3.new =~= new.take(end as int));
                lemma_scan_alignment(old, new, b, end, found + 1, end, cut || found > next, a3);
            },
            None => {
                lemma_scan_alignment(old, new, b, at + 1, next, pending, cut, a);
            },
        }
    }
}

/// Applying the script of a scan to the old stream gives the new stream,
/// where no window was matched to a block with other bytes and the scan
/// inserted nothing after passing over an old block.
pub proof fn lemma_scan_round_trip(old: Seq<u8>, new: Seq<u8>, block_size: nat)
    requires
        block_size > 0,
        no_false_match(old, new, block_size),
        inserts_before_deletes(DigestView::of(old, block_size), new, 0, 0, 0, false),
    ensures
        diff_between(DigestView::of(old, block_size), new).apply(old) == Some(new),
{
    lemma_start_sound();
    let a = Alignment::start();
    assert(a.new =~= new.take(0));
    assert(0 * block_size == 0) by (nonlinear_arith);
    assert(a.old =~= old_before(old, block_size, 0));
    lemma_scan_alignment(old, new, block_size, 0, 0, 0, false, a);
}

} // verus!
