//! Scripts built in stream order, and why applying them gives the new
//! stream.
//!
//! A script that is built while an old and a new stream are walked through
//! side by side, by keeping, inserting and deleting runs of bytes, turns the
//! old stream into the new one.
use crate::diff::{
    apply_deletes, apply_inserts, delete_pass, insert_pass, DeleteView, DiffView, InsertView,
};
use vstd::prelude::*;

verus! {

/// A script under construction, with the part of the old stream that it has
/// dealt with, the part of the new stream that it has produced, and the
/// stream between the two: the old bytes with the inserts put in and the
/// deletes not yet taken out.
pub struct Alignment {
    pub diff: DiffView,
    pub old: Seq<u8>,
    pub mid: Seq<u8>,
    pub new: Seq<u8>,
}

impl Alignment {
    pub open spec fn start() -> Alignment {
        Alignment {
            diff: DiffView::empty(),
            old: Seq::empty(),
            mid: Seq::empty(),
            new: Seq::empty(),
        }
    }

    /// The alignment after `bytes` of the old stream have been kept.
    pub open spec fn keep(self, bytes: Seq<u8>) -> Alignment {
        Alignment {
            diff: self.diff,
            old: self.old + bytes,
            mid: self.mid + bytes,
            new: self.new + bytes,
        }
    }

    /// The alignment after `bytes` have been inserted.
    pub open spec fn put(self, bytes: Seq<u8>) -> Alignment {
        Alignment {
            diff: self.diff.add_insert(self.mid.len(), bytes),
            old: self.old,
            mid: self.mid + bytes,
            new: self.new + bytes,
        }
    }

    /// The alignment after `bytes` of the old stream have been deleted.
    pub open spec fn cut(self, bytes: Seq<u8>) -> Alignment {
        Alignment {
            diff: self.diff.add_delete(self.new.len(), bytes.len()),
            old: self.old + bytes,
            mid: self.mid + bytes,
            new: self.new,
        }
    }

    /// The insert pass over the old stream gives the stream in between, and
    /// its output so far ends with the last insert.
    pub open spec fn inserts_sound(self) -> bool {
        match insert_pass(self.old, self.diff.inserts, self.diff.inserts.len()) {
            None => false,
            Some((out, used)) => {
                &&& used <= self.old.len()
                &&& out + self.old.subrange(used as int, self.old.len() as int) == self.mid
                &&& self.diff.inserts.len() > 0 ==> out.len() == self.diff.inserts.last().end()
            },
        }
    }

    /// The delete pass over the stream in between gives the new stream, and
    /// its output so far ends where the last delete lies.
    pub open spec fn deletes_sound(self) -> bool {
        match delete_pass(self.mid, self.diff.deletes, self.diff.deletes.len()) {
            None => false,
            Some((out, used)) => {
                &&& used <= self.mid.len()
                &&& out + self.mid.subrange(used as int, self.mid.len() as int) == self.new
                &&& self.diff.deletes.len() > 0 ==> out.len() == self.diff.deletes.last().position
            },
        }
    }

    /// Both passes are sound.
    #[verifier::opaque]
    pub open spec fn sound(self) -> bool {
        self.inserts_sound() && self.deletes_sound()
    }
}

/// The insert pass over the first `k` inserts does not depend on the inserts
/// after them.
pub proof fn lemma_insert_pass_prefix(
    old: Seq<u8>,
    left: Seq<InsertView>,
    right: Seq<InsertView>,
    k: nat,
)
    requires
        k <= left.len(),
        k <= right.len(),
        forall|i: int| 0 <= i < k ==> left[i] == right[i],
    ensures
        insert_pass(old, left, k) == insert_pass(old, right, k),
    decreases k,
{
    if k > 0 {
        lemma_insert_pass_prefix(old, left, right, (k - 1) as nat);
    }
}

/// The delete pass over the first `k` deletes does not depend on the deletes
/// after them.
pub proof fn lemma_delete_pass_prefix(
    mid: Seq<u8>,
    left: Seq<DeleteView>,
    right: Seq<DeleteView>,
    k: nat,
)
    requires
        k <= left.len(),
        k <= right.len(),
        forall|i: int| 0 <= i < k ==> left[i] == right[i],
    ensures
        delete_pass(mid, left, k) == delete_pass(mid, right, k),
    decreases k,
{
    if k > 0 {
        lemma_delete_pass_prefix(mid, left, right, (k - 1) as nat);
    }
}

/// An insert pass that succeeds on a stream gives the same on any longer
/// stream.
pub proof fn lemma_insert_pass_extend(
    old: Seq<u8>,
    more: Seq<u8>,
    inserts: Seq<InsertView>,
    k: nat,
)
    requires
        insert_pass(old, inserts, k) is Some,
    ensures
        insert_pass(old + more, inserts, k) == insert_pass(old, inserts, k),
        insert_pass(old, inserts, k) matches Some(state) ==> state.1 <= old.len(),
    decreases k,
{
    if k > 0 {
        lemma_insert_pass_extend(old, more, inserts, (k - 1) as nat);
        let (out, used) = insert_pass(old, inserts, (k - 1) as nat)->0;
        let op = inserts[k - 1];
        let gap = if op.position > out.len() {
            op.position - out.len()
        } else {
            0
        };
        assert((old + more).subrange(used as int, used + gap) =~= old.subrange(
            used as int,
            used + gap,
        ));
    }
}

/// A delete pass that succeeds on a stream gives the same on any longer
/// stream.
pub proof fn lemma_delete_pass_extend(
    mid: Seq<u8>,
    more: Seq<u8>,
    deletes: Seq<DeleteView>,
    k: nat,
)
    requires
        delete_pass(mid, deletes, k) is Some,
    ensures
        delete_pass(mid + more, deletes, k) == delete_pass(mid, deletes, k),
        delete_pass(mid, deletes, k) matches Some(state) ==> state.1 <= mid.len(),
    decreases k,
{
    if k > 0 {
        lemma_delete_pass_extend(mid, more, deletes, (k - 1) as nat);
        let (out, used) = delete_pass(mid, deletes, (k - 1) as nat)->0;
        let op = deletes[k - 1];
        let gap = if op.position > out.len() {
            op.position - out.len()
        } else {
            0
        };
        assert((mid + more).subrange(used as int, used + gap) =~= mid.subrange(
            used as int,
            used + gap,
        ));
    }
}

/// Growing all three streams by the same bytes keeps the passes sound, as
/// long as the script stays the same.
proof fn lemma_grow_inserts(a: Alignment, bytes: Seq<u8>)
    requires
        a.inserts_sound(),
    ensures
        (Alignment { diff: a.diff, old: a.old + bytes, mid: a.mid + bytes, new: a.new })
            .inserts_sound(),
{
    let n = a.diff.inserts.len();
    lemma_insert_pass_extend(a.old, bytes, a.diff.inserts, n);
    let (out, used) = insert_pass(a.old, a.diff.inserts, n)->0;
    let longer = a.old + bytes;
    assert(out + longer.subrange(used as int, longer.len() as int) =~= a.mid + bytes);
}

proof fn lemma_grow_deletes(a: Alignment, bytes: Seq<u8>)
    requires
        a.deletes_sound(),
    ensures
        (Alignment { diff: a.diff, old: a.old, mid: a.mid + bytes, new: a.new + bytes })
            .deletes_sound(),
{
    let n = a.diff.deletes.len();
    lemma_delete_pass_extend(a.mid, bytes, a.diff.deletes, n);
    let (out, used) = delete_pass(a.mid, a.diff.deletes, n)->0;
    let longer = a.mid + bytes;
    assert(out + longer.subrange(used as int, longer.len() as int) =~= a.new + bytes);
}

/// Keeping bytes keeps an alignment sound.
pub proof fn lemma_keep_sound(a: Alignment, bytes: Seq<u8>)
    requires
        a.sound(),
    ensures
        a.keep(bytes).sound(),
{
    reveal(Alignment::sound);
    lemma_grow_inserts(a, bytes);
    lemma_grow_deletes(a, bytes);
}

/// Inserting bytes keeps an alignment sound.
pub proof fn lemma_put_sound(a: Alignment, bytes: Seq<u8>)
    requires
        a.sound(),
    ensures
        a.put(bytes).sound(),
{
    reveal(Alignment::sound);
    lemma_grow_deletes(a, bytes);
    let after = a.put(bytes);
    let inserts = a.diff.inserts;
    let n = inserts.len();
    let (out, used) = insert_pass(a.old, inserts, n)->0;
    if n > 0 && inserts.last().end() == a.mid.len() {
        let last = inserts.last();
        let merged = InsertView { position: last.position, data: last.data + bytes };
        assert(after.diff.inserts == inserts.drop_last().push(merged));
        lemma_insert_pass_prefix(a.old, inserts, after.diff.inserts, (n - 1) as nat);
        let (out_p, used_p) = insert_pass(a.old, inserts, (n - 1) as nat)->0;
        let gap = if last.position > out_p.len() {
            last.position - out_p.len()
        } else {
            0
        };
        assert(a.old.subrange(used as int, a.old.len() as int).len() == 0);
        assert(out =~= a.mid);
        assert(out_p + a.old.subrange(used_p as int, used_p + gap) + (last.data + bytes) =~= out
            + bytes);
        assert(out + bytes + a.old.subrange(used as int, a.old.len() as int) =~= a.mid + bytes);
    } else {
        let op = InsertView { position: a.mid.len(), data: bytes };
        assert(after.diff.inserts == inserts.push(op));
        lemma_insert_pass_prefix(a.old, inserts, after.diff.inserts, n);
        let gap = a.mid.len() - out.len();
        assert(out + a.old.subrange(used as int, used + gap) + bytes =~= a.mid + bytes);
        assert(a.mid + bytes + a.old.subrange(a.old.len() as int, a.old.len() as int) =~= a.mid
            + bytes);
    }
}

/// Deleting bytes keeps an alignment sound.
pub proof fn lemma_cut_sound(a: Alignment, bytes: Seq<u8>)
    requires
        a.sound(),
    ensures
        a.cut(bytes).sound(),
{
    reveal(Alignment::sound);
    lemma_grow_inserts(a, bytes);
    let after = a.cut(bytes);
    let deletes = a.diff.deletes;
    let n = deletes.len();
    let longer = a.mid + bytes;
    lemma_delete_pass_extend(a.mid, bytes, deletes, n);
    let (out, used) = delete_pass(a.mid, deletes, n)->0;
    if n > 0 && deletes.last().position == a.new.len() {
        let last = deletes.last();
        let merged = DeleteView { position: a.new.len(), len: last.len + bytes.len() };
        assert(after.diff.deletes == deletes.drop_last().push(merged));
        lemma_delete_pass_extend(a.mid, bytes, deletes, (n - 1) as nat);
        lemma_delete_pass_prefix(longer, deletes, after.diff.deletes, (n - 1) as nat);
        assert(a.mid.subrange(used as int, a.mid.len() as int).len() == 0);
        assert(out =~= a.new);
        assert(out + longer.subrange(longer.len() as int, longer.len() as int) =~= a.new);
    } else {
        let op = DeleteView { position: a.new.len(), len: bytes.len() };
        assert(after.diff.deletes == deletes.push(op));
        lemma_delete_pass_prefix(longer, deletes, after.diff.deletes, n);
        let gap = a.new.len() - out.len();
        assert(out + longer.subrange(used as int, used + gap) =~= a.new);
        assert(a.new + longer.subrange(longer.len() as int, longer.len() as int) =~= a.new);
    }
}

/// An alignment that has not started is sound.
pub proof fn lemma_start_sound()
    ensures
        Alignment::start().sound(),
{
    reveal(Alignment::sound);
    let a = Alignment::start();
    assert(a.old.subrange(0, 0) =~= Seq::<u8>::empty());
    assert(Seq::<u8>::empty() + a.old.subrange(0, 0) =~= a.mid);
    assert(Seq::<u8>::empty() + a.mid.subrange(0, 0) =~= a.new);
}

/// The script of a sound alignment turns its old stream into its new one.
pub proof fn lemma_sound_applies(a: Alignment)
    requires
        a.sound(),
    ensures
        a.diff.apply(a.old) == Some(a.new),
{
    reveal(Alignment::sound);
    assert(apply_inserts(a.old, a.diff.inserts) == Some(a.mid));
    assert(apply_deletes(a.mid, a.diff.deletes) == Some(a.new));
}

} // verus!
