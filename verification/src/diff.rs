//! Edit scripts: ordered inserts and deletes, how they apply to a byte
//! stream, and their wire encoding.
use crate::wire::{lemma_u32_be_round_trip, put_u32, u32_be_bytes, u32_from_be, ByteReader};
use vstd::prelude::*;
use vstd::slice::slice_subrange;

verus! {

/// Why an operation on an edit script or a digest failed.
#[derive(Debug, Clone, Copy, PartialEq, Eq)]
pub enum Error {
    /// The encoded input is truncated or inconsistent.
    Decode,
    /// The script refers to bytes beyond the stream it is applied to, or the
    /// result is not valid UTF-8 where a string is asked for.
    Apply,
    /// A position, length or count does not fit the 32-bit wire format.
    Encode,
}

/// An operation that inserts bytes at a position.
#[derive(Debug, PartialEq)]
pub struct Insert {
    position: usize,
    data: Vec<u8>,
}

/// An operation that deletes a number of bytes at a position.
#[derive(Debug, PartialEq)]
pub struct Delete {
    position: usize,
    len: usize,
}

/// A series of operations that turn one version of a stream into the next.
///
/// Inserts come first: they are applied in order to the old stream, and the
/// deletes are then applied in order to the result.
#[derive(Debug, PartialEq)]
pub struct Diff {
    inserts: Vec<Insert>,
    deletes: Vec<Delete>,
}

/// The mathematical value of an [`Insert`].
pub struct InsertView {
    pub position: nat,
    pub data: Seq<u8>,
}

/// The mathematical value of a [`Delete`].
pub struct DeleteView {
    pub position: nat,
    pub len: nat,
}

/// The mathematical value of a [`Diff`].
pub struct DiffView {
    pub inserts: Seq<InsertView>,
    pub deletes: Seq<DeleteView>,
}

impl InsertView {
    /// The first byte after the inserted run.
    pub open spec fn end(self) -> nat {
        self.position + self.data.len()
    }

    pub open spec fn encodable(self) -> bool {
        self.position <= u32::MAX && self.data.len() <= u32::MAX
    }

    /// Position, length, then the bytes themselves.
    pub open spec fn encoding(self) -> Seq<u8> {
        u32_be_bytes(self.position as u32) + u32_be_bytes(self.data.len() as u32) + self.data
    }

    /// The insert at the front of `bytes` and the number of bytes it takes up.
    pub open spec fn parse(bytes: Seq<u8>) -> Option<(InsertView, nat)> {
        if bytes.len() < 8 {
            None
        } else {
            let position = u32_from_be(bytes);
            let len = u32_from_be(bytes.skip(4));
            if bytes.len() - 8 < len {
                None
            } else {
                Some(
                    (
                        InsertView {
                            position: position as nat,
                            data: bytes.subrange(8, 8 + len),
                        },
                        (8 + len) as nat,
                    ),
                )
            }
        }
    }
}

impl DeleteView {
    pub open spec fn encodable(self) -> bool {
        self.position <= u32::MAX && self.len <= u32::MAX
    }

    /// Position, then length.
    pub open spec fn encoding(self) -> Seq<u8> {
        u32_be_bytes(self.position as u32) + u32_be_bytes(self.len as u32)
    }

    /// The delete at the front of `bytes` and the number of bytes it takes up.
    pub open spec fn parse(bytes: Seq<u8>) -> Option<(DeleteView, nat)> {
        if bytes.len() < 8 {
            None
        } else {
            Some(
                (
                    DeleteView {
                        position: u32_from_be(bytes) as nat,
                        len: u32_from_be(bytes.skip(4)) as nat,
                    },
                    8nat,
                ),
            )
        }
    }
}

/// The encodings of the first `k` inserts, one after another.
pub open spec fn inserts_encoding(inserts: Seq<InsertView>, k: nat) -> Seq<u8>
    decreases k,
{
    if k == 0 {
        Seq::empty()
    } else {
        inserts_encoding(inserts, (k - 1) as nat) + inserts[k - 1].encoding()
    }
}

/// The encodings of the first `k` deletes, one after another.
pub open spec fn deletes_encoding(deletes: Seq<DeleteView>, k: nat) -> Seq<u8>
    decreases k,
{
    if k == 0 {
        Seq::empty()
    } else {
        deletes_encoding(deletes, (k - 1) as nat) + deletes[k - 1].encoding()
    }
}

/// `k` inserts read one after another from the front of `bytes`, and the
/// number of bytes they take up.
pub open spec fn parse_inserts(bytes: Seq<u8>, k: nat) -> Option<(Seq<InsertView>, nat)>
    decreases k,
{
    if k == 0 {
        Some((Seq::empty(), 0nat))
    } else {
        match InsertView::parse(bytes) {
            None => None,
            Some((first, used)) => match parse_inserts(bytes.skip(used as int), (k - 1) as nat) {
                None => None,
                Some((rest, more)) => Some((seq![first] + rest, used + more)),
            },
        }
    }
}

/// `k` deletes read one after another from the front of `bytes`, and the
/// number of bytes they take up.
pub open spec fn parse_deletes(bytes: Seq<u8>, k: nat) -> Option<(Seq<DeleteView>, nat)>
    decreases k,
{
    if k == 0 {
        Some((Seq::empty(), 0nat))
    } else {
        match DeleteView::parse(bytes) {
            None => None,
            Some((first, used)) => match parse_deletes(bytes.skip(used as int), (k - 1) as nat) {
                None => None,
                Some((rest, more)) => Some((seq![first] + rest, used + more)),
            },
        }
    }
}

/// The state of the insert pass after the first `k` inserts: the output
/// written so far and the number of bytes of `old` copied into it.  `None`
/// if an insert lies beyond the end of `old`.
pub open spec fn insert_pass(old: Seq<u8>, inserts: Seq<InsertView>, k: nat) -> Option<
    (Seq<u8>, nat),
>
    decreases k,
{
    if k == 0 {
        Some((Seq::empty(), 0nat))
    } else {
        match insert_pass(old, inserts, (k - 1) as nat) {
            None => None,
            Some((out, used)) => {
                let op = inserts[k - 1];
                let gap = if op.position > out.len() {
                    op.position - out.len()
                } else {
                    0
                };
                if used + gap > old.len() {
                    None
                } else {
                    Some(
                        (
                            out + old.subrange(used as int, used + gap) + op.data,
                            (used + gap) as nat,
                        ),
                    )
                }
            },
        }
    }
}

/// The state of the delete pass after the first `k` deletes: the output
/// written so far and the number of bytes of `mid` copied or skipped.  `None`
/// if a delete starts or ends beyond the end of `mid`.
pub open spec fn delete_pass(mid: Seq<u8>, deletes: Seq<DeleteView>, k: nat) -> Option<
    (Seq<u8>, nat),
>
    decreases k,
{
    if k == 0 {
        Some((Seq::empty(), 0nat))
    } else {
        match delete_pass(mid, deletes, (k - 1) as nat) {
            None => None,
            Some((out, used)) => {
                let op = deletes[k - 1];
                let gap = if op.position > out.len() {
                    op.position - out.len()
                } else {
                    0
                };
                if used + gap + op.len > mid.len() {
                    None
                } else {
                    Some(
                        (
                            out + mid.subrange(used as int, used + gap),
                            (used + gap + op.len) as nat,
                        ),
                    )
                }
            },
        }
    }
}

/// `old` with all of `inserts` put in, in order.
pub open spec fn apply_inserts(old: Seq<u8>, inserts: Seq<InsertView>) -> Option<Seq<u8>> {
    match insert_pass(old, inserts, inserts.len()) {
        None => None,
        Some((out, used)) => Some(out + old.subrange(used as int, old.len() as int)),
    }
}

/// `mid` with all of `deletes` taken out, in order.
pub open spec fn apply_deletes(mid: Seq<u8>, deletes: Seq<DeleteView>) -> Option<Seq<u8>> {
    match delete_pass(mid, deletes, deletes.len()) {
        None => None,
        Some((out, used)) => Some(out + mid.subrange(used as int, mid.len() as int)),
    }
}

impl DiffView {
    pub open spec fn empty() -> DiffView {
        DiffView { inserts: Seq::empty(), deletes: Seq::empty() }
    }

    /// No insert is empty, and each starts strictly after the end of the one
    /// before; no delete is empty, and their positions strictly increase.
    #[verifier::opaque]
    pub open spec fn wf(self) -> bool {
        &&& forall|i: int|
            0 <= i < self.inserts.len() ==> (#[trigger] self.inserts[i]).data.len() > 0
        &&& forall|i: int|
            0 <= i < self.inserts.len() - 1 ==> (#[trigger] self.inserts[i]).end()
                < self.inserts[i + 1].position
        &&& forall|i: int| 0 <= i < self.deletes.len() ==> (#[trigger] self.deletes[i]).len > 0
        &&& forall|i: int|
            0 <= i < self.deletes.len() - 1 ==> (#[trigger] self.deletes[i]).position
                < self.deletes[i + 1].position
    }

    /// Whether an insert at `position` comes after every insert so far.
    pub open spec fn admits_insert(self, position: nat) -> bool {
        self.inserts.len() > 0 ==> self.inserts.last().end() <= position
    }

    /// Whether a delete at `position` comes at or after every delete so far.
    pub open spec fn admits_delete(self, position: nat) -> bool {
        self.deletes.len() > 0 ==> self.deletes.last().position <= position
    }

    /// The script with one more insert, merged into the last one where it
    /// starts exactly at that one's end.
    pub open spec fn add_insert(self, position: nat, data: Seq<u8>) -> DiffView {
        if self.inserts.len() > 0 && self.inserts.last().end() == position {
            let last = self.inserts.last();
            DiffView {
                inserts: self.inserts.drop_last().push(
                    InsertView { position: last.position, data: last.data + data },
                ),
                deletes: self.deletes,
            }
        } else {
            DiffView {
                inserts: self.inserts.push(InsertView { position, data }),
                deletes: self.deletes,
            }
        }
    }

    /// The script with one more delete, merged into the last one where both
    /// are at the same position.
    pub open spec fn add_delete(self, position: nat, len: nat) -> DiffView {
        if self.deletes.len() > 0 && self.deletes.last().position == position {
            let last = self.deletes.last();
            DiffView {
                inserts: self.inserts,
                deletes: self.deletes.drop_last().push(
                    DeleteView { position, len: last.len + len },
                ),
            }
        } else {
            DiffView {
                inserts: self.inserts,
                deletes: self.deletes.push(DeleteView { position, len }),
            }
        }
    }

    /// The stream that the script makes of `old`: inserts first, then
    /// deletes.  `None` if an operation reaches beyond the stream it works on.
    pub open spec fn apply(self, old: Seq<u8>) -> Option<Seq<u8>> {
        match apply_inserts(old, self.inserts) {
            None => None,
            Some(mid) => apply_deletes(mid, self.deletes),
        }
    }

    pub open spec fn encodable(self) -> bool {
        &&& self.inserts.len() <= u32::MAX
        &&& self.deletes.len() <= u32::MAX
        &&& forall|i: int| 0 <= i < self.inserts.len() ==> (#[trigger] self.inserts[i]).encodable()
        &&& forall|i: int| 0 <= i < self.deletes.len() ==> (#[trigger] self.deletes[i]).encodable()
    }

    /// The insert count and the inserts, then the delete count and the
    /// deletes.
    pub open spec fn encoding(self) -> Seq<u8> {
        u32_be_bytes(self.inserts.len() as u32) + inserts_encoding(self.inserts, self.inserts.len())
            + u32_be_bytes(self.deletes.len() as u32) + deletes_encoding(
            self.deletes,
            self.deletes.len(),
        )
    }

    /// The script at the front of `bytes` and the number of bytes it takes up.
    pub open spec fn parse(bytes: Seq<u8>) -> Option<(DiffView, nat)> {
        if bytes.len() < 4 {
            None
        } else {
            match parse_inserts(bytes.skip(4), u32_from_be(bytes) as nat) {
                None => None,
                Some((inserts, used)) => {
                    let tail = bytes.skip(4 + used as int);
                    if tail.len() < 4 {
                        None
                    } else {
                        match parse_deletes(tail.skip(4), u32_from_be(tail) as nat) {
                            None => None,
                            Some((deletes, more)) => Some(
                                (DiffView { inserts, deletes }, (8 + used + more) as nat),
                            ),
                        }
                    }
                },
            }
        }
    }
}

impl View for Insert {
    type V = InsertView;

    closed spec fn view(&self) -> InsertView {
        InsertView { position: self.position as nat, data: self.data@ }
    }
}

impl View for Delete {
    type V = DeleteView;

    closed spec fn view(&self) -> DeleteView {
        DeleteView { position: self.position as nat, len: self.len as nat }
    }
}

impl View for Diff {
    type V = DiffView;

    closed spec fn view(&self) -> DiffView {
        DiffView {
            inserts: Seq::new(self.inserts@.len(), |i: int| self.inserts@[i]@),
            deletes: Seq::new(self.deletes@.len(), |i: int| self.deletes@[i]@),
        }
    }
}

impl Insert {
    /// An insert of `data` at `position`.
    pub fn new(data: Vec<u8>, position: usize) -> (op: Insert)
        ensures
            op@ == (InsertView { position: position as nat, data: data@ }),
    {
        Insert { position, data }
    }

    /// The byte position of this insert.
    pub fn get_position(&self) -> (position: usize)
        ensures
            position == self@.position,
    {
        self.position
    }

    /// The bytes that this insert puts in.
    pub fn get_data(&self) -> (data: &Vec<u8>)
        ensures
            data@ == self@.data,
    {
        &self.data
    }

    /// Appends the encoding of this insert to `writer`.  Fails, writing
    /// nothing, if the position or the length does not fit in 32 bits.
    pub fn compress_to(&self, writer: &mut Vec<u8>) -> (r: Result<(), Error>)
        ensures
            self@.encodable() ==> r is Ok && final(writer)@ == old(writer)@ + self@.encoding(),
            !self@.encodable() ==> r == Err::<(), Error>(Error::Encode) && final(writer)@ == old(
                writer,
            )@,
    {
        if self.position > u32::MAX as usize || self.data.len() > u32::MAX as usize {
            return Err(Error::Encode);
        }
        put_u32(writer, self.position as u32);
        put_u32(writer, self.data.len() as u32);
        writer.extend_from_slice(self.data.as_slice());
        Ok(())
    }

    /// Reads one insert from `reader`.  Fails if the input ends before the
    /// header or before the declared number of bytes.
    pub fn expand_from(reader: &mut ByteReader) -> (r: Result<Insert, Error>)
        ensures
            match InsertView::parse(old(reader).remaining()) {
                Some((op, used)) => r is Ok && r->Ok_0@ == op && final(reader).remaining() == old(
                    reader,
                ).remaining().skip(used as int),
                None => r == Err::<Insert, Error>(Error::Decode),
            },
    {
        let ghost bytes = reader.remaining();
        if reader.remaining_len() < 8 {
            return Err(Error::Decode);
        }
        let position = match reader.read_u32() {
            Some(n) => n,
            None => { return Err(Error::Decode); },
        };
        let len = match reader.read_u32() {
            Some(n) => n,
            None => { return Err(Error::Decode); },
        };
        match reader.read_exact(len as usize) {
            Some(data) => {
                proof {
                    assert(bytes.skip(4).skip(4) =~= bytes.skip(8));
                    assert(bytes.skip(8).take(len as int) =~= bytes.subrange(8, 8 + len));
                    assert(bytes.skip(8).skip(len as int) =~= bytes.skip(8 + len));
                }
                Ok(Insert { position: position as usize, data })
            },
            None => {
                proof {
                    assert(bytes.skip(4).skip(4) =~= bytes.skip(8));
                }
                Err(Error::Decode)
            },
        }
    }
}

impl Delete {
    /// A delete of `length` bytes at `position`.
    pub fn new(position: usize, length: usize) -> (op: Delete)
        ensures
            op@ == (DeleteView { position: position as nat, len: length as nat }),
    {
        Delete { position, len: length }
    }

    /// The byte position of this delete.
    pub fn get_position(&self) -> (position: usize)
        ensures
            position == self@.position,
    {
        self.position
    }

    /// The number of bytes that this delete takes out.
    pub fn get_length(&self) -> (len: usize)
        ensures
            len == self@.len,
    {
        self.len
    }

    /// Appends the encoding of this delete to `writer`.  Fails, writing
    /// nothing, if the position or the length does not fit in 32 bits.
    pub fn compress_to(&self, writer: &mut Vec<u8>) -> (r: Result<(), Error>)
        ensures
            self@.encodable() ==> r is Ok && final(writer)@ == old(writer)@ + self@.encoding(),
            !self@.encodable() ==> r == Err::<(), Error>(Error::Encode) && final(writer)@ == old(
                writer,
            )@,
    {
        if self.position > u32::MAX as usize || self.len > u32::MAX as usize {
            return Err(Error::Encode);
        }
        put_u32(writer, self.position as u32);
        put_u32(writer, self.len as u32);
        Ok(())
    }

    /// Reads one delete from `reader`.  Fails if the input ends before the
    /// two numbers are complete.
    pub fn expand_from(reader: &mut ByteReader) -> (r: Result<Delete, Error>)
        ensures
            match DeleteView::parse(old(reader).remaining()) {
                Some((op, used)) => r is Ok && r->Ok_0@ == op && final(reader).remaining() == old(
                    reader,
                ).remaining().skip(used as int),
                None => r == Err::<Delete, Error>(Error::Decode),
            },
    {
        let ghost bytes = reader.remaining();
        if reader.remaining_len() < 8 {
            return Err(Error::Decode);
        }
        let position = match reader.read_u32() {
            Some(n) => n,
            None => { return Err(Error::Decode); },
        };
        let len = match reader.read_u32() {
            Some(n) => n,
            None => { return Err(Error::Decode); },
        };
        proof {
            assert(bytes.skip(4).skip(4) =~= bytes.skip(8));
        }
        Ok(Delete { position: position as usize, len: len as usize })
    }
}


/// Once an insert lies beyond the end of the stream, so does the script.
pub proof fn lemma_insert_pass_fails_on(old: Seq<u8>, inserts: Seq<InsertView>, k: nat, n: nat)
    requires
        k <= n,
        insert_pass(old, inserts, k) is None,
    ensures
        insert_pass(old, inserts, n) is None,
    decreases n,
{
    if k < n {
        lemma_insert_pass_fails_on(old, inserts, k, (n - 1) as nat);
    }
}

/// Once a delete reaches beyond the end of the stream, so does the script.
pub proof fn lemma_delete_pass_fails_on(mid: Seq<u8>, deletes: Seq<DeleteView>, k: nat, n: nat)
    requires
        k <= n,
        delete_pass(mid, deletes, k) is None,
    ensures
        delete_pass(mid, deletes, n) is None,
    decreases n,
{
    if k < n {
        lemma_delete_pass_fails_on(mid, deletes, k, (n - 1) as nat);
    }
}

/// Calls `String::from_utf8`, which accepts exactly the byte vectors that
/// are valid UTF-8 and gives the string that they encode.
#[verifier::external_body]
fn string_from_utf8(bytes: Vec<u8>) -> (r: Option<String>)
    ensures
        r is Some <==> vstd::utf8::valid_utf8(bytes@),
        r is Some ==> r->0@ == vstd::utf8::decode_utf8(bytes@),
{
    String::from_utf8(bytes).ok()
}

impl Diff {
    /// An empty script.
    pub fn new() -> (diff: Diff)
        ensures
            diff@ == DiffView::empty(),
            diff@.wf(),
    {
        let diff = Diff { inserts: Vec::new(), deletes: Vec::new() };
        reveal(DiffView::wf);
        assert(diff@.inserts =~= Seq::empty());
        assert(diff@.deletes =~= Seq::empty());
        diff
    }

    /// Adds an insert, whose position must not lie before that of the last
    /// insert.  It is merged into the last insert where it starts at that
    /// one's end.  The script stays well formed if the insert is not empty
    /// and comes after the end of the last one.
    pub fn add_insert(&mut self, position: usize, data: Vec<u8>)
        requires
            old(self)@.inserts.len() > 0 ==> old(self)@.inserts.last().position <= position,
        ensures
            final(self)@ == old(self)@.add_insert(position as nat, data@),
            old(self)@.wf() && old(self)@.admits_insert(position as nat) && data@.len() > 0
                ==> final(self)@.wf(),
    {
        reveal(DiffView::wf);
        let ghost before = self@;
        let ghost added = data@;
        let mut data = data;
        let n = self.inserts.len();
        if n > 0 {
            assert(self.inserts@[n - 1]@ == before.inserts.last());
            let end = self.inserts[n - 1].position.checked_add(self.inserts[n - 1].data.len());
            if end == Some(position) {
                let mut tail = self.inserts.pop().unwrap();
                tail.data.append(&mut data);
                self.inserts.push(tail);
                assert(self@.inserts =~= before.add_insert(position as nat, added).inserts);
                assert(self@.deletes =~= before.deletes);
                return ;
            }
        }
        self.inserts.push(Insert { position, data });
        assert(self@.inserts =~= before.add_insert(position as nat, added).inserts);
        assert(self@.deletes =~= before.deletes);
    }

    /// Adds a delete, which must come at or after all deletes added before.
    /// It is merged into the last delete where both are at one position.
    pub fn add_delete(&mut self, position: usize, len: usize)
        requires
            old(self)@.admits_delete(position as nat),
            old(self)@.deletes.len() > 0 && old(self)@.deletes.last().position == position
                ==> old(self)@.deletes.last().len + len <= usize::MAX,
        ensures
            final(self)@ == old(self)@.add_delete(position as nat, len as nat),
            old(self)@.wf() && len > 0 ==> final(self)@.wf(),
    {
        reveal(DiffView::wf);
        let ghost before = self@;
        let n = self.deletes.len();
        if n > 0 {
            assert(self.deletes@[n - 1]@ == before.deletes.last());
            if self.deletes[n - 1].position == position {
                let tail = self.deletes.pop().unwrap();
                self.deletes.push(Delete { position, len: tail.len + len });
                assert(self@.deletes =~= before.add_delete(position as nat, len as nat).deletes);
                assert(self@.inserts =~= before.inserts);
                return ;
            }
        }
        self.deletes.push(Delete { position, len });
        assert(self@.deletes =~= before.add_delete(position as nat, len as nat).deletes);
        assert(self@.inserts =~= before.inserts);
    }

    /// The inserts, in order.
    pub fn inserts(&self) -> (ops: &Vec<Insert>)
        ensures
            ops@.len() == self@.inserts.len(),
            forall|i: int| 0 <= i < ops@.len() ==> (#[trigger] ops@[i])@ == self@.inserts[i],
    {
        &self.inserts
    }

    /// The deletes, in order.
    pub fn deletes(&self) -> (ops: &Vec<Delete>)
        ensures
            ops@.len() == self@.deletes.len(),
            forall|i: int| 0 <= i < ops@.len() ==> (#[trigger] ops@[i])@ == self@.deletes[i],
    {
        &self.deletes
    }

    /// Whether the script holds no operation at all.
    pub fn is_empty(&self) -> (empty: bool)
        ensures
            empty <==> self@.inserts.len() == 0 && self@.deletes.len() == 0,
    {
        self.deletes.len() == 0 && self.inserts.len() == 0
    }

    /// Applies the script to `old`.  Fails if an operation lies beyond the
    /// end of the stream it works on.
    pub fn apply_to_bytes(&self, old: &[u8]) -> (r: Result<Vec<u8>, Error>)
        ensures
            match self@.apply(old@) {
                Some(new) => r is Ok && r->Ok_0@ == new,
                None => r is Err && r->Err_0 == Error::Apply,
            },
    {
        let mut mid: Vec<u8> = Vec::new();
        let mut used: usize = 0;
        let mut k: usize = 0;
        while k < self.inserts.len()
            invariant
                k <= self.inserts@.len(),
                self.inserts@.len() == self@.inserts.len(),
                used <= old@.len(),
                insert_pass(old@, self@.inserts, k as nat) == Some((mid@, used as nat)),
            decreases self.inserts@.len() - k,
        {
            let op = &self.inserts[k];
            assert(op@ == self@.inserts[k as int]);
            let gap = if op.position > mid.len() {
                op.position - mid.len()
            } else {
                0
            };
            if gap > old.len() - used {
                proof {
                    lemma_insert_pass_fails_on(
                        old@,
                        self@.inserts,
                        (k + 1) as nat,
                        self@.inserts.len(),
                    );
                }
                return Err(Error::Apply);
            }
            mid.extend_from_slice(slice_subrange(old, used, used + gap));
            mid.extend_from_slice(op.data.as_slice());
            used = used + gap;
            k = k + 1;
        }
        mid.extend_from_slice(slice_subrange(old, used, old.len()));
        assert(apply_inserts(old@, self@.inserts) == Some(mid@));
        let mut new: Vec<u8> = Vec::new();
        let mut used: usize = 0;
        let mut k: usize = 0;
        while k < self.deletes.len()
            invariant
                k <= self.deletes@.len(),
                self.deletes@.len() == self@.deletes.len(),
                used <= mid@.len(),
                apply_inserts(old@, self@.inserts) == Some(mid@),
                delete_pass(mid@, self@.deletes, k as nat) == Some((new@, used as nat)),
            decreases self.deletes@.len() - k,
        {
            let op = &self.deletes[k];
            assert(op@ == self@.deletes[k as int]);
            let gap = if op.position > new.len() {
                op.position - new.len()
            } else {
                0
            };
            if gap > mid.len() - used || op.len > mid.len() - used - gap {
                proof {
                    lemma_delete_pass_fails_on(
                        mid@,
                        self@.deletes,
                        (k + 1) as nat,
                        self@.deletes.len(),
                    );
                }
                return Err(Error::Apply);
            }
            new.extend_from_slice(slice_subrange(mid.as_slice(), used, used + gap));
            used = used + gap + op.len;
            k = k + 1;
        }
        new.extend_from_slice(slice_subrange(mid.as_slice(), used, mid.len()));
        Ok(new)
    }

    /// Applies the script to the UTF-8 bytes of `string`.  Fails if an
    /// operation lies beyond the end of the stream it works on, or if the
    /// result is not valid UTF-8.
    pub fn apply_to_string(&self, string: &str) -> (r: Result<String, Error>)
        ensures
            match self@.apply(vstd::utf8::encode_utf8(string@)) {
                Some(new) => if vstd::utf8::valid_utf8(new) {
                    r is Ok && r->Ok_0@ == vstd::utf8::decode_utf8(new)
                } else {
                    r is Err && r->Err_0 == Error::Apply
                },
                None => r is Err && r->Err_0 == Error::Apply,
            },
    {
        match self.apply_to_bytes(string.as_bytes()) {
            Ok(bytes) => match string_from_utf8(bytes) {
                Some(s) => Ok(s),
                None => Err(Error::Apply),
            },
            Err(e) => Err(e),
        }
    }

    /// Appends the encoding of the script to `writer`.  Fails, writing
    /// nothing, if a count, a position or a length does not fit in 32 bits.
    pub fn compress_to(&self, writer: &mut Vec<u8>) -> (r: Result<(), Error>)
        ensures
            self@.encodable() ==> r is Ok && final(writer)@ == old(writer)@ + self@.encoding(),
            !self@.encodable() ==> r is Err && r->Err_0 == Error::Encode && final(writer)@ == old(
                writer,
            )@,
    {
        if self.inserts.len() > u32::MAX as usize || self.deletes.len() > u32::MAX as usize {
            return Err(Error::Encode);
        }
        let mut buf: Vec<u8> = Vec::new();
        put_u32(&mut buf, self.inserts.len() as u32);
        let mut k: usize = 0;
        while k < self.inserts.len()
            invariant
                k <= self.inserts@.len(),
                self.inserts@.len() == self@.inserts.len(),
                self.inserts@.len() <= u32::MAX,
                forall|i: int| 0 <= i < k ==> (#[trigger] self@.inserts[i]).encodable(),
                buf@ == u32_be_bytes(self@.inserts.len() as u32) + inserts_encoding(
                    self@.inserts,
                    k as nat,
                ),
            decreases self.inserts@.len() - k,
        {
            assert(self.inserts@[k as int]@ == self@.inserts[k as int]);
            match self.inserts[k].compress_to(&mut buf) {
                Ok(()) => {},
                Err(e) => {
                    return Err(e);
                },
            }
            k = k + 1;
        }
        let ghost head = buf@;
        put_u32(&mut buf, self.deletes.len() as u32);
        let mut k: usize = 0;
        while k < self.deletes.len()
            invariant
                k <= self.deletes@.len(),
                self.deletes@.len() == self@.deletes.len(),
                self.deletes@.len() <= u32::MAX,
                forall|i: int| 0 <= i < k ==> (#[trigger] self@.deletes[i]).encodable(),
                buf@ == head + u32_be_bytes(self@.deletes.len() as u32) + deletes_encoding(
                    self@.deletes,
                    k as nat,
                ),
            decreases self.deletes@.len() - k,
        {
            assert(self.deletes@[k as int]@ == self@.deletes[k as int]);
            match self.deletes[k].compress_to(&mut buf) {
                Ok(()) => {},
                Err(e) => {
                    return Err(e);
                },
            }
            k = k + 1;
        }
        assert(buf@ == self@.encoding());
        writer.append(&mut buf);
        Ok(())
    }

    /// Reads one script from `reader`.  Fails if the input ends before the
    /// script is complete.
    pub fn expand_from(reader: &mut ByteReader) -> (r: Result<Diff, Error>)
        ensures
            match DiffView::parse(old(reader).remaining()) {
                Some((diff, used)) => r is Ok && r->Ok_0@ == diff && final(reader).remaining()
                    == old(reader).remaining().skip(used as int),
                None => r is Err && r->Err_0 == Error::Decode,
            },
    {
        let ghost bytes = reader.remaining();
        let count = match reader.read_u32() {
            Some(n) => n,
            None => {
                return Err(Error::Decode);
            },
        };
        let ghost body = reader.remaining();
        let mut inserts: Vec<Insert> = Vec::new();
        let ghost mut got: Seq<InsertView> = Seq::empty();
        let ghost mut used: nat = 0;
        let mut k: u32 = 0;
        while k < count
            invariant
                k <= count,
                used <= body.len(),
                bytes == old(reader).remaining(),
                bytes.len() >= 4,
                body == bytes.skip(4),
                count == u32_from_be(bytes),
                reader.remaining() == body.skip(used as int),
                got.len() == inserts@.len(),
                forall|i: int| 0 <= i < got.len() ==> (#[trigger] inserts@[i])@ == got[i],
                match parse_inserts(reader.remaining(), (count - k) as nat) {
                    None => parse_inserts(body, count as nat) is None,
                    Some((rest, more)) => parse_inserts(body, count as nat) == Some(
                        (got + rest, used + more),
                    ),
                },
            decreases count - k,
        {
            let ghost here = reader.remaining();
            match Insert::expand_from(reader) {
                Ok(op) => {
                    proof {
                        let (first, n) = InsertView::parse(here)->0;
                        assert(here.skip(n as int) =~= body.skip((used + n) as int));
                        match parse_inserts(here.skip(n as int), (count - k - 1) as nat) {
                            None => {},
                            Some((rest, more)) => {
                                assert(got.push(first) + rest =~= got + (seq![first] + rest));
                            },
                        }
                        got = got.push(first);
                        used = used + n;
                    }
                    inserts.push(op);
                },
                Err(e) => {
                    return Err(e);
                },
            }
            k = k + 1;
        }
        assert(parse_inserts(body, count as nat) == Some((got, used))) by {
            assert(got + Seq::<InsertView>::empty() =~= got);
        }
        let ghost tail = reader.remaining();
        assert(tail =~= bytes.skip(4 + used as int));
        let count = match reader.read_u32() {
            Some(n) => n,
            None => {
                return Err(Error::Decode);
            },
        };
        let ghost body = reader.remaining();
        let mut deletes: Vec<Delete> = Vec::new();
        let ghost mut cut: Seq<DeleteView> = Seq::empty();
        let ghost mut more_used: nat = 0;
        let mut k: u32 = 0;
        while k < count
            invariant
                k <= count,
                more_used <= body.len(),
                bytes == old(reader).remaining(),
                bytes.len() >= 4,
                parse_inserts(bytes.skip(4), u32_from_be(bytes) as nat) == Some((got, used)),
                tail == bytes.skip(4 + used as int),
                tail.len() >= 4,
                body == tail.skip(4),
                count == u32_from_be(tail),
                reader.remaining() == body.skip(more_used as int),
                cut.len() == deletes@.len(),
                forall|i: int| 0 <= i < cut.len() ==> (#[trigger] deletes@[i])@ == cut[i],
                match parse_deletes(reader.remaining(), (count - k) as nat) {
                    None => parse_deletes(body, count as nat) is None,
                    Some((rest, more)) => parse_deletes(body, count as nat) == Some(
                        (cut + rest, more_used + more),
                    ),
                },
            decreases count - k,
        {
            let ghost here = reader.remaining();
            match Delete::expand_from(reader) {
                Ok(op) => {
                    proof {
                        let (first, n) = DeleteView::parse(here)->0;
                        assert(here.skip(n as int) =~= body.skip((more_used + n) as int));
                        match parse_deletes(here.skip(n as int), (count - k - 1) as nat) {
                            None => {},
                            Some((rest, more)) => {
                                assert(cut.push(first) + rest =~= cut + (seq![first] + rest));
                            },
                        }
                        cut = cut.push(first);
                        more_used = more_used + n;
                    }
                    deletes.push(op);
                },
                Err(e) => {
                    return Err(e);
                },
            }
            k = k + 1;
        }
        assert(parse_deletes(body, count as nat) == Some((cut, more_used))) by {
            assert(cut + Seq::<DeleteView>::empty() =~= cut);
        }
        let diff = Diff { inserts, deletes };
        proof {
            assert(diff@.inserts =~= got);
            assert(diff@.deletes =~= cut);
            assert(reader.remaining() =~= bytes.skip((8 + used + more_used) as int));
        }
        Ok(diff)
    }
}


/// Decoding the encoding of an insert gives the insert back, and takes up
/// exactly the encoding, whatever follows it.
pub proof fn lemma_insert_round_trip(op: InsertView, rest: Seq<u8>)
    requires
        op.encodable(),
    ensures
        InsertView::parse(op.encoding() + rest) == Some((op, op.encoding().len())),
{
    let bytes = op.encoding() + rest;
    let len_bytes = u32_be_bytes(op.data.len() as u32);
    lemma_u32_be_round_trip(op.position as u32, len_bytes + op.data + rest);
    lemma_u32_be_round_trip(op.data.len() as u32, op.data + rest);
    assert(bytes =~= u32_be_bytes(op.position as u32) + (len_bytes + op.data + rest));
    assert(bytes.skip(4) =~= len_bytes + (op.data + rest));
    assert(bytes.subrange(8, 8 + op.data.len() as int) =~= op.data);
}

/// Decoding the encoding of a delete gives the delete back, and takes up
/// exactly the encoding, whatever follows it.
pub proof fn lemma_delete_round_trip(op: DeleteView, rest: Seq<u8>)
    requires
        op.encodable(),
    ensures
        DeleteView::parse(op.encoding() + rest) == Some((op, op.encoding().len())),
{
    let bytes = op.encoding() + rest;
    let len_bytes = u32_be_bytes(op.len as u32);
    lemma_u32_be_round_trip(op.position as u32, len_bytes + rest);
    lemma_u32_be_round_trip(op.len as u32, rest);
    assert(bytes =~= u32_be_bytes(op.position as u32) + (len_bytes + rest));
    assert(bytes.skip(4) =~= len_bytes + rest);
}

/// The encoding of several inserts starts with that of the first.
pub proof fn lemma_inserts_encoding_front(inserts: Seq<InsertView>, k: nat)
    requires
        1 <= k <= inserts.len(),
    ensures
        inserts_encoding(inserts, k) == inserts[0].encoding() + inserts_encoding(
            inserts.drop_first(),
            (k - 1) as nat,
        ),
    decreases k,
{
    if k == 1 {
        assert(inserts_encoding(inserts, 0) =~= Seq::<u8>::empty());
        assert(inserts_encoding(inserts.drop_first(), 0) =~= Seq::<u8>::empty());
        assert(inserts_encoding(inserts, 1) =~= inserts[0].encoding() + Seq::<u8>::empty());
    } else {
        lemma_inserts_encoding_front(inserts, (k - 1) as nat);
        assert(inserts.drop_first()[k - 2] == inserts[k - 1]);
        assert(inserts_encoding(inserts, k) =~= inserts[0].encoding() + inserts_encoding(
            inserts.drop_first(),
            (k - 1) as nat,
        ));
    }
}

/// The encoding of several deletes starts with that of the first.
pub proof fn lemma_deletes_encoding_front(deletes: Seq<DeleteView>, k: nat)
    requires
        1 <= k <= deletes.len(),
    ensures
        deletes_encoding(deletes, k) == deletes[0].encoding() + deletes_encoding(
            deletes.drop_first(),
            (k - 1) as nat,
        ),
    decreases k,
{
    if k == 1 {
        assert(deletes_encoding(deletes, 0) =~= Seq::<u8>::empty());
        assert(deletes_encoding(deletes.drop_first(), 0) =~= Seq::<u8>::empty());
        assert(deletes_encoding(deletes, 1) =~= deletes[0].encoding() + Seq::<u8>::empty());
    } else {
        lemma_deletes_encoding_front(deletes, (k - 1) as nat);
        assert(deletes.drop_first()[k - 2] == deletes[k - 1]);
        assert(deletes_encoding(deletes, k) =~= deletes[0].encoding() + deletes_encoding(
            deletes.drop_first(),
            (k - 1) as nat,
        ));
    }
}

/// Decoding the encodings of several inserts gives the inserts back.
pub proof fn lemma_inserts_round_trip(inserts: Seq<InsertView>, rest: Seq<u8>)
    requires
        forall|i: int| 0 <= i < inserts.len() ==> (#[trigger] inserts[i]).encodable(),
    ensures
        parse_inserts(inserts_encoding(inserts, inserts.len()) + rest, inserts.len()) == Some(
            (inserts, inserts_encoding(inserts, inserts.len()).len()),
        ),
    decreases inserts.len(),
{
    let all = inserts_encoding(inserts, inserts.len());
    if inserts.len() == 0 {
        assert(inserts =~= Seq::<InsertView>::empty());
    } else {
        let tail = inserts.drop_first();
        let tail_bytes = inserts_encoding(tail, tail.len());
        lemma_inserts_encoding_front(inserts, inserts.len());
        lemma_insert_round_trip(inserts[0], tail_bytes + rest);
        assert forall|i: int| 0 <= i < tail.len() implies (#[trigger] tail[i]).encodable() by {
            assert(tail[i] == inserts[i + 1]);
        }
        lemma_inserts_round_trip(tail, rest);
        let first = inserts[0].encoding();
        assert(all + rest =~= first + (tail_bytes + rest));
        assert((all + rest).skip(first.len() as int) =~= tail_bytes + rest);
        assert(seq![inserts[0]] + tail =~= inserts);
    }
}

/// Decoding the encodings of several deletes gives the deletes back.
pub proof fn lemma_deletes_round_trip(deletes: Seq<DeleteView>, rest: Seq<u8>)
    requires
        forall|i: int| 0 <= i < deletes.len() ==> (#[trigger] deletes[i]).encodable(),
    ensures
        parse_deletes(deletes_encoding(deletes, deletes.len()) + rest, deletes.len()) == Some(
            (deletes, deletes_encoding(deletes, deletes.len()).len()),
        ),
    decreases deletes.len(),
{
    let all = deletes_encoding(deletes, deletes.len());
    if deletes.len() == 0 {
        assert(deletes =~= Seq::<DeleteView>::empty());
    } else {
        let tail = deletes.drop_first();
        let tail_bytes = deletes_encoding(tail, tail.len());
        lemma_deletes_encoding_front(deletes, deletes.len());
        lemma_delete_round_trip(deletes[0], tail_bytes + rest);
        assert forall|i: int| 0 <= i < tail.len() implies (#[trigger] tail[i]).encodable() by {
            assert(tail[i] == deletes[i + 1]);
        }
        lemma_deletes_round_trip(tail, rest);
        let first = deletes[0].encoding();
        assert(all + rest =~= first + (tail_bytes + rest));
        assert((all + rest).skip(first.len() as int) =~= tail_bytes + rest);
        assert(seq![deletes[0]] + tail =~= deletes);
    }
}

/// Five runs of bytes joined from the left are the first run, then the
/// rest joined from the right.
proof fn lemma_five_parts(a: Seq<u8>, b: Seq<u8>, c: Seq<u8>, d: Seq<u8>, e: Seq<u8>)
    ensures
        a + b + c + d + e == a + (b + (c + (d + e))),
        (a + (b + (c + (d + e)))).skip(a.len() as int) == b + (c + (d + e)),
        (a + (b + (c + (d + e)))).skip((a.len() + b.len()) as int) == c + (d + e),
        (c + (d + e)).skip(c.len() as int) == d + e,
        (a + b + c + d).len() == a.len() + b.len() + c.len() + d.len(),
{
    assert(a + b + c + d + e =~= a + (b + (c + (d + e))));
    assert((a + (b + (c + (d + e)))).skip(a.len() as int) =~= b + (c + (d + e)));
    assert((a + (b + (c + (d + e)))).skip((a.len() + b.len()) as int) =~= c + (d + e));
    assert((c + (d + e)).skip(c.len() as int) =~= d + e);
}

/// Decoding the encoding of a script gives the script back, and takes up
/// exactly the encoding, whatever follows it.
pub proof fn lemma_diff_round_trip(diff: DiffView, rest: Seq<u8>)
    requires
        diff.encodable(),
    ensures
        DiffView::parse(diff.encoding() + rest) == Some((diff, diff.encoding().len())),
{
    let a = u32_be_bytes(diff.inserts.len() as u32);
    let b = inserts_encoding(diff.inserts, diff.inserts.len());
    let c = u32_be_bytes(diff.deletes.len() as u32);
    let d = deletes_encoding(diff.deletes, diff.deletes.len());
    let bytes = a + (b + (c + (d + rest)));
    lemma_five_parts(a, b, c, d, rest);
    assert(diff.encoding() + rest == bytes);
    lemma_u32_be_round_trip(diff.inserts.len() as u32, b + (c + (d + rest)));
    lemma_inserts_round_trip(diff.inserts, c + (d + rest));
    lemma_u32_be_round_trip(diff.deletes.len() as u32, d + rest);
    lemma_deletes_round_trip(diff.deletes, rest);
    let tail = bytes.skip(4 + b.len() as int);
    assert(tail == c + (d + rest));
    assert(tail.skip(4) == d + rest);
    assert(bytes.skip(4) == b + (c + (d + rest)));
}

} // verus!
