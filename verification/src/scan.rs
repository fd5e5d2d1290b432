//! The scan of a new stream against the digest of an old one, as a
//! function from the two to the script that it gives.
use crate::diff::DiffView;
use crate::digest::{block_count, find_block, lemma_block_count_is, sum_of, DigestView};
use crate::window::frame_at;
use vstd::prelude::*;

verus! {

/// The script so far with the unmatched bytes from `pending` up to `at`
/// added as one insert, if there are any.
pub open spec fn flush(diff: DiffView, new: Seq<u8>, pending: nat, at: nat) -> DiffView {
    if pending < at {
        diff.add_insert(pending, new.subrange(pending as int, at as int))
    } else {
        diff
    }
}

/// The script once the new stream is exhausted: the unmatched bytes at its
/// end are inserted, and the old blocks from `next` on are deleted.
pub open spec fn finish(
    old: DigestView,
    new: Seq<u8>,
    next: nat,
    pending: nat,
    diff: DiffView,
) -> DiffView {
    let flushed = flush(diff, new, pending, new.len());
    if next < old.blocks.len() {
        flushed.add_delete(new.len(), (old.file_size - next * old.block_size) as nat)
    } else {
        flushed
    }
}

/// The scan of `new` from position `at` on.  Old blocks before `next` are
/// accounted for, the bytes from `pending` up to `at` matched nothing, and
/// `diff` holds the operations found so far.
///
/// Where the window at `at` has the hashes of an old block at or after
/// `next`, the first such block is matched: the pending bytes become an
/// insert, the old blocks skipped become a delete, and the scan goes on
/// behind the window.  Otherwise it goes on one byte further.
pub open spec fn scan(
    old: DigestView,
    new: Seq<u8>,
    at: nat,
    next: nat,
    pending: nat,
    diff: DiffView,
) -> DiffView
    decreases new.len() - at,
{
    if at >= new.len() || old.block_size == 0 {
        finish(old, new, next, pending, diff)
    } else {
        let frame = frame_at(new, old.block_size, at);
        match find_block(old.blocks, sum_of(frame), next) {
            Some(found) => {
                let flushed = flush(diff, new, pending, at);
                let cut = if found > next {
                    flushed.add_delete(at, old.block_size * ((found - next) as nat))
                } else {
                    flushed
                };
                let end = at + frame.len();
                scan(old, new, end, found + 1, end, cut)
            },
            None => scan(old, new, at + 1, next, pending, diff),
        }
    }
}

/// The script that a scan of `new` against the digest `old` gives.
pub open spec fn diff_between(old: DigestView, new: Seq<u8>) -> DiffView {
    scan(old, new, 0, 0, 0, DiffView::empty())
}

/// Scanning a stream against its own digest matches block after block and
/// leaves the script empty.
pub proof fn lemma_scan_of_same_stream(data: Seq<u8>, block_size: nat, k: nat)
    requires
        block_size > 0,
        k <= block_count(data.len(), block_size),
    ensures
        ({
            let at = if k * block_size <= data.len() {
                k * block_size
            } else {
                data.len()
            };
            scan(DigestView::of(data, block_size), data, at, k, at, DiffView::empty())
                == DiffView::empty()
        }),
    decreases block_count(data.len(), block_size) - k,
{
    let old = DigestView::of(data, block_size);
    let count = block_count(data.len(), block_size);
    let b = block_size;
    lemma_block_count_is(data.len(), b, count);
    if k < count {
        assert(k * b <= (count - 1) * b) by (nonlinear_arith)
            requires
                k <= count - 1,
                b > 0,
        ;
        let at: nat = k * b;
        let frame = frame_at(data, b, at);
        assert(old.blocks[k as int] == sum_of(frame));
        assert(find_block(old.blocks, sum_of(frame), k) == Some(k));
        let end = at + frame.len();
        assert((k + 1) * b == k * b + b) by (nonlinear_arith);
        lemma_scan_of_same_stream(data, block_size, k + 1);
        assert(scan(old, data, at, k, at, DiffView::empty()) == scan(
            old,
            data,
            end,
            k + 1,
            end,
            DiffView::empty(),
        ));
    } else {
        assert(k * b >= data.len());
    }
}

/// A stream scanned against its own digest gives an empty script.
pub proof fn lemma_same_stream_empty_diff(data: Seq<u8>, block_size: nat)
    requires
        block_size > 0,
    ensures
        diff_between(DigestView::of(data, block_size), data) == DiffView::empty(),
{
    lemma_scan_of_same_stream(data, block_size, 0);
    assert(0 * block_size == 0) by (nonlinear_arith);
}

} // verus!
