//! Character-level edit scripts between two strings, found with the
//! Hirschberg algorithm.
use crate::alignment::{
    lemma_cut_sound, lemma_keep_sound, lemma_put_sound, lemma_sound_applies, lemma_start_sound,
    Alignment,
};
use crate::diff::{Diff, DiffView};
use crate::utf8::{
    byte_len, chars_of, lemma_byte_len_bounds, lemma_encode_around, lemma_encode_concat,
    lemma_encode_single, utf8_bytes, utf8_len, utf8_len_of,
};
use vstd::prelude::*;
use vstd::slice::slice_subrange;
use vstd::utf8::{encode_scalar, encode_utf8};

verus! {

/// The score of each operation that turns one string into another.  Scores
/// may depend on the characters involved; higher is better.
pub trait OperationScore {
    /// The score for inserting character `c`.
    spec fn spec_insert_score(&self, c: char) -> i32;

    /// The score for deleting character `c`.
    spec fn spec_delete_score(&self, c: char) -> i32;

    /// The score for replacing character `old` with character `new`.
    spec fn spec_substitution_score(&self, old: char, new: char) -> i32;

    /// The score for keeping character `c`, which both strings hold.
    spec fn spec_match_score(&self, c: char) -> i32;

    /// The score for inserting character `c`.
    fn insert_score(&self, c: char) -> (score: i32)
        ensures
            score == self.spec_insert_score(c),
    ;

    /// The score for deleting character `c`.
    fn delete_score(&self, c: char) -> (score: i32)
        ensures
            score == self.spec_delete_score(c),
    ;

    /// The score for replacing character `old` with character `new`.
    fn substitution_score(&self, old: char, new: char) -> (score: i32)
        ensures
            score == self.spec_substitution_score(old, new),
    ;

    /// The score for keeping character `c`, which both strings hold.
    fn match_score(&self, c: char) -> (score: i32)
        ensures
            score == self.spec_match_score(c),
    ;
}

/// The classical edit distance: an insert and a delete score -1 each, a
/// substitution scores -2, and a match scores 0.
pub struct EditDistance;

impl OperationScore for EditDistance {
    open spec fn spec_insert_score(&self, c: char) -> i32 {
        -1i32
    }

    open spec fn spec_delete_score(&self, c: char) -> i32 {
        -1i32
    }

    open spec fn spec_substitution_score(&self, old: char, new: char) -> i32 {
        -2i32
    }

    open spec fn spec_match_score(&self, c: char) -> i32 {
        0
    }

    fn insert_score(&self, c: char) -> (score: i32) {
        -1
    }

    fn delete_score(&self, c: char) -> (score: i32) {
        -1
    }

    fn substitution_score(&self, old: char, new: char) -> (score: i32) {
        -2
    }

    fn match_score(&self, c: char) -> (score: i32) {
        0
    }
}

/// The score for lining up `a` in the old string with `b` in the new one.
pub open spec fn pair_score<S: OperationScore>(scorer: &S, a: char, b: char) -> int {
    if a == b {
        scorer.spec_match_score(a) as int
    } else {
        scorer.spec_substitution_score(a, b) as int
    }
}

pub open spec fn max3(a: int, b: int, c: int) -> int {
    if a >= b && a >= c {
        a
    } else if b >= c {
        b
    } else {
        c
    }
}

/// The Needleman-Wunsch score: the best total score of any way to turn the
/// first `i` characters of `old` into the first `j` characters of `new`.
pub open spec fn nw<S: OperationScore>(
    scorer: &S,
    old: Seq<char>,
    new: Seq<char>,
    i: nat,
    j: nat,
) -> int
    decreases i + j,
{
    if i == 0 && j == 0 {
        0
    } else if i == 0 {
        nw(scorer, old, new, 0, (j - 1) as nat) + scorer.spec_insert_score(new[j - 1])
    } else if j == 0 {
        nw(scorer, old, new, (i - 1) as nat, 0) + scorer.spec_delete_score(old[i - 1])
    } else {
        max3(
            nw(scorer, old, new, (i - 1) as nat, (j - 1) as nat) + pair_score(
                scorer,
                old[i - 1],
                new[j - 1],
            ),
            nw(scorer, old, new, (i - 1) as nat, j) + scorer.spec_delete_score(old[i - 1]),
            nw(scorer, old, new, i, (j - 1) as nat) + scorer.spec_insert_score(new[j - 1]),
        )
    }
}

/// A score over `i + j` characters is at most that many times the largest
/// score of one operation, in either direction.
pub proof fn lemma_nw_bound<S: OperationScore>(
    scorer: &S,
    old: Seq<char>,
    new: Seq<char>,
    i: nat,
    j: nat,
)
    ensures
        -(i + j) * 0x8000_0000 <= nw(scorer, old, new, i, j) <= (i + j) * 0x8000_0000,
    decreases i + j,
{
    if i == 0 && j == 0 {
    } else if i == 0 {
        lemma_nw_bound(scorer, old, new, 0, (j - 1) as nat);
    } else if j == 0 {
        lemma_nw_bound(scorer, old, new, (i - 1) as nat, 0);
    } else {
        lemma_nw_bound(scorer, old, new, (i - 1) as nat, (j - 1) as nat);
        lemma_nw_bound(scorer, old, new, (i - 1) as nat, j);
        lemma_nw_bound(scorer, old, new, i, (j - 1) as nat);
    }
}

/// The largest number of characters that two strings may hold together for
/// scores and byte positions to stay within machine integers.
pub const MAX_CHARS: usize = 0x3fff_ffff;

/// Computes the last row of the Needleman-Wunsch score table for turning
/// `old` into each prefix of `new`.
pub fn score_row<S: OperationScore>(old: &[char], new: &[char], scorer: &S) -> (row: Vec<i64>)
    requires
        old@.len() + new@.len() <= MAX_CHARS,
    ensures
        row@.len() == new@.len() + 1,
        forall|j: int|
            0 <= j <= new@.len() ==> #[trigger] row@[j] == nw(
                scorer,
                old@,
                new@,
                old@.len(),
                j as nat,
            ),
{
    let mut last_row: Vec<i64> = Vec::new();
    let mut total_insert: i64 = 0;
    last_row.push(0);
    let mut j: usize = 0;
    while j < new.len()
        invariant
            j <= new@.len(),
            old@.len() + new@.len() <= MAX_CHARS,
            last_row@.len() == j + 1,
            total_insert == nw(scorer, old@, new@, 0, j as nat),
            forall|k: int|
                0 <= k <= j ==> #[trigger] last_row@[k] == nw(scorer, old@, new@, 0, k as nat),
        decreases new@.len() - j,
    {
        proof {
            lemma_nw_bound(scorer, old@, new@, 0, j as nat);
            lemma_nw_bound(scorer, old@, new@, 0, (j + 1) as nat);
        }
        total_insert = total_insert + scorer.insert_score(new[j]) as i64;
        last_row.push(total_insert);
        j = j + 1;
    }
    let mut i: usize = 0;
    while i < old.len()
        invariant
            i <= old@.len(),
            old@.len() + new@.len() <= MAX_CHARS,
            last_row@.len() == new@.len() + 1,
            forall|k: int|
                0 <= k <= new@.len() ==> #[trigger] last_row@[k] == nw(
                    scorer,
                    old@,
                    new@,
                    i as nat,
                    k as nat,
                ),
        decreases old@.len() - i,
    {
        let old_char = old[i];
        let mut this_row: Vec<i64> = Vec::new();
        proof {
            lemma_nw_bound(scorer, old@, new@, i as nat, 0);
            lemma_nw_bound(scorer, old@, new@, (i + 1) as nat, 0);
        }
        this_row.push(last_row[0] + scorer.delete_score(old_char) as i64);
        let mut j: usize = 0;
        while j < new.len()
            invariant
                j <= new@.len(),
                i < old@.len(),
                old_char == old@[i as int],
                old@.len() + new@.len() <= MAX_CHARS,
                last_row@.len() == new@.len() + 1,
                this_row@.len() == j + 1,
                forall|k: int|
                    0 <= k <= new@.len() ==> #[trigger] last_row@[k] == nw(
                        scorer,
                        old@,
                        new@,
                        i as nat,
                        k as nat,
                    ),
                forall|k: int|
                    0 <= k <= j ==> #[trigger] this_row@[k] == nw(
                        scorer,
                        old@,
                        new@,
                        (i + 1) as nat,
                        k as nat,
                    ),
            decreases new@.len() - j,
        {
            let new_char = new[j];
            proof {
                lemma_nw_bound(scorer, old@, new@, i as nat, j as nat);
                lemma_nw_bound(scorer, old@, new@, i as nat, (j + 1) as nat);
                lemma_nw_bound(scorer, old@, new@, (i + 1) as nat, j as nat);
            }
            let pair = if old_char == new_char {
                scorer.match_score(old_char)
            } else {
                scorer.substitution_score(old_char, new_char)
            };
            let score_sub = last_row[j] + pair as i64;
            let score_del = last_row[j + 1] + scorer.delete_score(old_char) as i64;
            let score_ins = this_row[j] + scorer.insert_score(new_char) as i64;
            let best = if score_sub >= score_del && score_sub >= score_ins {
                score_sub
            } else if score_del >= score_ins {
                score_del
            } else {
                score_ins
            };
            this_row.push(best);
            j = j + 1;
        }
        last_row = this_row;
        i = i + 1;
    }
    last_row
}

/// The first position from `from` on at which `s` holds `c`.
pub open spec fn first_position(s: Seq<char>, c: char, from: nat) -> Option<nat>
    decreases s.len() - from,
{
    if from >= s.len() {
        None
    } else if s[from as int] == c {
        Some(from)
    } else {
        first_position(s, c, from + 1)
    }
}

/// What `first_position` finds lies within the string.
pub proof fn lemma_first_position_in_range(s: Seq<char>, c: char, from: nat)
    ensures
        first_position(s, c, from) matches Some(p) ==> from <= p < s.len() && s[p as int] == c,
    decreases s.len() - from,
{
    if from < s.len() && s[from as int] != c {
        lemma_first_position_in_range(s, c, from + 1);
    }
}

/// Finds the first position at which `s` holds `c`.
fn position_of(s: &[char], c: char) -> (found: Option<usize>)
    ensures
        match first_position(s@, c, 0) {
            Some(p) => found == Some(p as usize) && p < s@.len(),
            None => found is None,
        },
{
    let mut i: usize = 0;
    while i < s.len()
        invariant
            i <= s@.len(),
            first_position(s@, c, 0) == first_position(s@, c, i as nat),
        decreases s@.len() - i,
    {
        if s[i] == c {
            return Some(i);
        }
        i = i + 1;
    }
    None
}

/// A script under construction, with the two running byte positions that
/// place its operations: `insert_index` counts the bytes of the old string
/// passed and the bytes inserted, `delete_index` the bytes deleted.
pub struct Trace {
    pub diff: DiffView,
    pub insert_index: nat,
    pub delete_index: nat,
}

impl Trace {
    pub open spec fn start() -> Trace {
        Trace { diff: DiffView::empty(), insert_index: 0, delete_index: 0 }
    }

    /// Every operation so far lies at or before the running positions.
    pub open spec fn wf(self) -> bool {
        &&& self.diff.wf()
        &&& self.diff.admits_insert(self.insert_index)
        &&& self.delete_index <= self.insert_index
        &&& self.diff.admits_delete((self.insert_index - self.delete_index) as nat)
        &&& self.diff.deletes.len() > 0 ==> self.diff.deletes.last().len <= self.delete_index
    }

    /// The trace after `chars` have been inserted.
    pub open spec fn put(self, chars: Seq<char>) -> Trace {
        if chars.len() == 0 {
            self
        } else {
            Trace {
                diff: self.diff.add_insert(self.insert_index, encode_utf8(chars)),
                insert_index: self.insert_index + byte_len(chars),
                delete_index: self.delete_index,
            }
        }
    }

    /// The trace after `chars` of the old string have been deleted.
    pub open spec fn cut(self, chars: Seq<char>) -> Trace {
        if chars.len() == 0 {
            self
        } else {
            Trace {
                diff: self.diff.add_delete(
                    (self.insert_index - self.delete_index) as nat,
                    byte_len(chars),
                ),
                insert_index: self.insert_index + byte_len(chars),
                delete_index: self.delete_index + byte_len(chars),
            }
        }
    }

    /// The trace after the character `c` of the old string has been kept.
    pub open spec fn keep(self, c: char) -> Trace {
        Trace {
            diff: self.diff,
            insert_index: self.insert_index + encode_scalar(c as u32).len(),
            delete_index: self.delete_index,
        }
    }

    /// Whether `later` can follow from this trace by working through `old`
    /// and `new`: the positions moved on by no more than their bytes.
    pub open spec fn reaches(self, later: Trace, old: Seq<char>, new: Seq<char>) -> bool {
        &&& self.insert_index <= later.insert_index <= self.insert_index + byte_len(old)
            + byte_len(new)
        &&& self.delete_index <= later.delete_index <= self.delete_index + byte_len(old)
    }
}

/// The total score of a split of `new` at `j`, with `old` split at `mid`: the
/// score of the left halves, plus the score of the right halves, which is
/// computed on their reversals.
pub open spec fn split_total<S: OperationScore>(
    scorer: &S,
    old: Seq<char>,
    new: Seq<char>,
    mid: nat,
    j: nat,
) -> int {
    nw(scorer, old.take(mid as int), new, mid, j) + nw(
        scorer,
        old.skip(mid as int).reverse(),
        new.reverse(),
        (old.len() - mid) as nat,
        (new.len() - j) as nat,
    )
}

/// The split of `new`, among those at `0..=upto`, with the highest total
/// score; of several such, the last.
pub open spec fn best_split<S: OperationScore>(
    scorer: &S,
    old: Seq<char>,
    new: Seq<char>,
    mid: nat,
    upto: nat,
) -> nat
    decreases upto,
{
    if upto == 0 {
        0
    } else {
        let before = best_split(scorer, old, new, mid, (upto - 1) as nat);
        if split_total(scorer, old, new, mid, upto) >= split_total(scorer, old, new, mid, before) {
            upto
        } else {
            before
        }
    }
}

pub proof fn lemma_best_split_in_range<S: OperationScore>(
    scorer: &S,
    old: Seq<char>,
    new: Seq<char>,
    mid: nat,
    upto: nat,
)
    ensures
        best_split(scorer, old, new, mid, upto) <= upto,
    decreases upto,
{
    if upto > 0 {
        lemma_best_split_in_range(scorer, old, new, mid, (upto - 1) as nat);
    }
}

/// The trace after the single character of `old` has been looked for in
/// `new`: it is kept at its first occurrence, between inserts of what `new`
/// holds before and after it; without an occurrence, `new` is inserted and
/// the character deleted.
pub open spec fn keep_between_inserts(old: Seq<char>, new: Seq<char>, t: Trace) -> Trace
    recommends
        old.len() == 1,
{
    match first_position(new, old[0], 0) {
        Some(p) => t.put(new.take(p as int)).keep(old[0]).put(new.skip(p as int + 1)),
        None => t.put(new).cut(old),
    }
}

/// The trace after the single character of `new` has been looked for in
/// `old`: it is kept at its first occurrence, between deletes of what `old`
/// holds before and after it; without an occurrence, the character is
/// inserted and `old` deleted.
pub open spec fn keep_between_deletes(old: Seq<char>, new: Seq<char>, t: Trace) -> Trace
    recommends
        new.len() == 1,
{
    match first_position(old, new[0], 0) {
        Some(p) => t.cut(old.take(p as int)).keep(new[0]).cut(old.skip(p as int + 1)),
        None => t.put(new).cut(old),
    }
}

/// The trace that the Hirschberg algorithm leaves when it turns `old` into
/// `new`, starting from the trace `t`.
///
/// An empty side is inserted or deleted whole.  A single character on one
/// side is kept where the other side holds it, at its first occurrence, with
/// the rest before and after it inserted or deleted; where the other side
/// does not hold it, `new` is inserted and `old` deleted.  Otherwise `old` is
/// halved, `new` is split where the total score is best, and the left halves
/// are worked through before the right ones.
pub open spec fn hirschberg_trace<S: OperationScore>(
    scorer: &S,
    old: Seq<char>,
    new: Seq<char>,
    t: Trace,
) -> Trace
    decreases old.len(),
{
    if old.len() == 0 {
        t.put(new)
    } else if new.len() == 0 {
        t.cut(old)
    } else if old.len() == 1 {
        keep_between_inserts(old, new, t)
    } else if new.len() == 1 {
        keep_between_deletes(old, new, t)
    } else {
        let mid = old.len() / 2;
        let split = best_split(scorer, old, new, mid, new.len());
        hirschberg_trace(
            scorer,
            old.skip(mid as int),
            new.skip(split as int),
            hirschberg_trace(scorer, old.take(mid as int), new.take(split as int), t),
        )
    }
}

/// The script that the Hirschberg algorithm gives for turning `old` into
/// `new`.
pub open spec fn diff_of<S: OperationScore>(
    scorer: &S,
    old: Seq<char>,
    new: Seq<char>,
) -> DiffView {
    hirschberg_trace(scorer, old, new, Trace::start()).diff
}

/// The trace that a script and two running positions stand for.
pub open spec fn trace_of(diff: DiffView, insert_index: usize, delete_index: usize) -> Trace {
    Trace { diff, insert_index: insert_index as nat, delete_index: delete_index as nat }
}

/// Adds `chars`, if there are any, to the script as an insert at the running
/// position, and moves that position behind them.
fn do_insert(
    chars: &[char],
    diff: &mut Diff,
    insert_index: &mut usize,
    Ghost(delete_index): Ghost<usize>,
)
    requires
        trace_of(old(diff)@, *old(insert_index), delete_index).wf(),
        *old(insert_index) + byte_len(chars@) <= usize::MAX,
    ensures
        trace_of(final(diff)@, *final(insert_index), delete_index) == trace_of(
            old(diff)@,
            *old(insert_index),
            delete_index,
        ).put(chars@),
        trace_of(final(diff)@, *final(insert_index), delete_index).wf(),
        *final(insert_index) == *old(insert_index) + if chars@.len() == 0 {
            0
        } else {
            byte_len(chars@)
        },
{
    proof {
        lemma_byte_len_bounds(chars@);
    }
    let bytes = utf8_bytes(chars);
    let byte_len = bytes.len();
    if byte_len > 0 {
        diff.add_insert(*insert_index, bytes);
        *insert_index = *insert_index + byte_len;
    }
}

/// Adds the deletion of `chars`, if there are any, to the script, and moves
/// both running positions behind them.
fn do_delete(chars: &[char], diff: &mut Diff, insert_index: &mut usize, delete_index: &mut usize)
    requires
        trace_of(old(diff)@, *old(insert_index), *old(delete_index)).wf(),
        *old(insert_index) + byte_len(chars@) <= usize::MAX,
    ensures
        trace_of(final(diff)@, *final(insert_index), *final(delete_index)) == trace_of(
            old(diff)@,
            *old(insert_index),
            *old(delete_index),
        ).cut(chars@),
        trace_of(final(diff)@, *final(insert_index), *final(delete_index)).wf(),
        *final(insert_index) == *old(insert_index) + if chars@.len() == 0 {
            0
        } else {
            byte_len(chars@)
        },
        *final(delete_index) == *old(delete_index) + if chars@.len() == 0 {
            0
        } else {
            byte_len(chars@)
        },
{
    proof {
        lemma_byte_len_bounds(chars@);
    }
    let length = utf8_len(chars);
    if length > 0 {
        diff.add_delete(*insert_index - *delete_index, length);
        *delete_index = *delete_index + length;
        *insert_index = *insert_index + length;
    }
}

/// The characters of `chars` in reverse order.
fn reversed(chars: &Vec<char>) -> (back: Vec<char>)
    ensures
        back@ == chars@.reverse(),
{
    let mut back: Vec<char> = Vec::new();
    let mut i: usize = chars.len();
    while i > 0
        invariant
            i <= chars@.len(),
            back@.len() == chars@.len() - i,
            forall|k: int| 0 <= k < back@.len() ==> back@[k] == chars@[chars@.len() - 1 - k],
        decreases i,
    {
        i = i - 1;
        back.push(chars[i]);
    }
    assert(back@ =~= chars@.reverse());
    back
}

/// Finds where to split `new` so that the scores of the two halves add up
/// best: `score_l` holds the scores of the left half of `old` against each
/// prefix of `new`, `score_r` those of the right half against each suffix.
fn pick_split<S: OperationScore>(
    score_l: &Vec<i64>,
    score_r: &Vec<i64>,
    new_len: usize,
    scorer: &S,
    Ghost(old): Ghost<Seq<char>>,
    Ghost(new): Ghost<Seq<char>>,
    Ghost(mid): Ghost<nat>,
) -> (new_mid: usize)
    requires
        new.len() == new_len,
        mid <= old.len(),
        old.len() + new.len() <= MAX_CHARS,
        score_l@.len() == new_len + 1,
        score_r@.len() == new_len + 1,
        forall|j: int|
            0 <= j <= new_len ==> #[trigger] score_l@[j] == nw(
                scorer,
                old.take(mid as int),
                new,
                mid,
                j as nat,
            ),
        forall|j: int|
            0 <= j <= new_len ==> #[trigger] score_r@[j] == nw(
                scorer,
                old.skip(mid as int).reverse(),
                new.reverse(),
                (old.len() - mid) as nat,
                j as nat,
            ),
    ensures
        new_mid == best_split(scorer, old, new, mid, new.len()),
        new_mid <= new_len,
{
    proof {
        lemma_nw_bound(scorer, old.take(mid as int), new, mid, 0);
        lemma_nw_bound(
            scorer,
            old.skip(mid as int).reverse(),
            new.reverse(),
            (old.len() - mid) as nat,
            new.len(),
        );
    }
    let mut new_mid: usize = 0;
    let mut best: i64 = score_l[0] + score_r[new_len];
    let mut j: usize = 0;
    while j < new_len
        invariant
            j <= new_len,
            new.len() == new_len,
            mid <= old.len(),
            old.len() + new.len() <= MAX_CHARS,
            score_l@.len() == new_len + 1,
            score_r@.len() == new_len + 1,
            forall|j: int|
                0 <= j <= new_len ==> #[trigger] score_l@[j] == nw(
                    scorer,
                    old.take(mid as int),
                    new,
                    mid,
                    j as nat,
                ),
            forall|j: int|
                0 <= j <= new_len ==> #[trigger] score_r@[j] == nw(
                    scorer,
                    old.skip(mid as int).reverse(),
                    new.reverse(),
                    (old.len() - mid) as nat,
                    j as nat,
                ),
            new_mid == best_split(scorer, old, new, mid, j as nat),
            new_mid <= j,
            best == split_total(scorer, old, new, mid, new_mid as nat),
        decreases new_len - j,
    {
        j = j + 1;
        proof {
            lemma_nw_bound(scorer, old.take(mid as int), new, mid, j as nat);
            lemma_nw_bound(
                scorer,
                old.skip(mid as int).reverse(),
                new.reverse(),
                (old.len() - mid) as nat,
                (new.len() - j) as nat,
            );
        }
        let total = score_l[j] + score_r[new_len - j];
        if total >= best {
            best = total;
            new_mid = j;
        }
    }
    new_mid
}

/// Handles an old string of one character: keeps it where `y` holds it.
fn single_old(
    x: &[char],
    y: &[char],
    diff: &mut Diff,
    insert_index: &mut usize,
    delete_index: &mut usize,
)
    requires
        x@.len() == 1,
        y@.len() > 0,
        trace_of(old(diff)@, *old(insert_index), *old(delete_index)).wf(),
        *old(insert_index) + byte_len(x@) + byte_len(y@) <= usize::MAX,
    ensures
        trace_of(final(diff)@, *final(insert_index), *final(delete_index)) == keep_between_inserts(
            x@,
            y@,
            trace_of(old(diff)@, *old(insert_index), *old(delete_index)),
        ),
        trace_of(final(diff)@, *final(insert_index), *final(delete_index)).wf(),
        trace_of(old(diff)@, *old(insert_index), *old(delete_index)).reaches(
            trace_of(final(diff)@, *final(insert_index), *final(delete_index)),
            x@,
            y@,
        ),
{
    let x_char = x[0];
    proof {
        lemma_encode_single(x@);
    }
    match position_of(y, x_char) {
        Some(position) => {
            proof {
                lemma_first_position_in_range(y@, x_char, 0);
                lemma_encode_around(y@, position as int);
            }
            let y_len = y.len();
            let before = slice_subrange(y, 0, position);
            let after = slice_subrange(y, position + 1, y_len);
            assert(before@ =~= y@.take(position as int));
            assert(after@ =~= y@.skip(position + 1));
            do_insert(before, diff, insert_index, Ghost(*delete_index));
            *insert_index = *insert_index + utf8_len_of(x_char);
            do_insert(after, diff, insert_index, Ghost(*delete_index));
        },
        None => {
            do_insert(y, diff, insert_index, Ghost(*delete_index));
            do_delete(x, diff, insert_index, delete_index);
        },
    }
}

/// Handles a new string of one character: keeps it where `x` holds it.
fn single_new(
    x: &[char],
    y: &[char],
    diff: &mut Diff,
    insert_index: &mut usize,
    delete_index: &mut usize,
)
    requires
        y@.len() == 1,
        x@.len() > 0,
        trace_of(old(diff)@, *old(insert_index), *old(delete_index)).wf(),
        *old(insert_index) + byte_len(x@) + byte_len(y@) <= usize::MAX,
    ensures
        trace_of(final(diff)@, *final(insert_index), *final(delete_index)) == keep_between_deletes(
            x@,
            y@,
            trace_of(old(diff)@, *old(insert_index), *old(delete_index)),
        ),
        trace_of(final(diff)@, *final(insert_index), *final(delete_index)).wf(),
        trace_of(old(diff)@, *old(insert_index), *old(delete_index)).reaches(
            trace_of(final(diff)@, *final(insert_index), *final(delete_index)),
            x@,
            y@,
        ),
{
    let y_char = y[0];
    proof {
        lemma_encode_single(y@);
    }
    match position_of(x, y_char) {
        Some(position) => {
            proof {
                lemma_first_position_in_range(x@, y_char, 0);
                lemma_encode_around(x@, position as int);
            }
            let x_len = x.len();
            let before = slice_subrange(x, 0, position);
            let after = slice_subrange(x, position + 1, x_len);
            assert(before@ =~= x@.take(position as int));
            assert(after@ =~= x@.skip(position + 1));
            do_delete(before, diff, insert_index, delete_index);
            *insert_index = *insert_index + utf8_len_of(y_char);
            do_delete(after, diff, insert_index, delete_index);
        },
        None => {
            do_insert(y, diff, insert_index, Ghost(*delete_index));
            do_delete(x, diff, insert_index, delete_index);
        },
    }
}

/// Works out, with the Hirschberg algorithm, the operations that turn `x`
/// into `y`, and adds them to `diff`.  `x_rev` and `y_rev` are the two
/// strings reversed, and the two indexes are the running positions.
pub fn hirschberg<S: OperationScore>(
    x: &[char],
    y: &[char],
    x_rev: &[char],
    y_rev: &[char],
    scorer: &S,
    diff: &mut Diff,
    insert_index: &mut usize,
    delete_index: &mut usize,
)
    requires
        x_rev@ == x@.reverse(),
        y_rev@ == y@.reverse(),
        x@.len() + y@.len() <= MAX_CHARS,
        trace_of(old(diff)@, *old(insert_index), *old(delete_index)).wf(),
        *old(insert_index) + byte_len(x@) + byte_len(y@) <= usize::MAX,
    ensures
        trace_of(final(diff)@, *final(insert_index), *final(delete_index)) == hirschberg_trace(
            scorer,
            x@,
            y@,
            trace_of(old(diff)@, *old(insert_index), *old(delete_index)),
        ),
        trace_of(final(diff)@, *final(insert_index), *final(delete_index)).wf(),
        trace_of(old(diff)@, *old(insert_index), *old(delete_index)).reaches(
            trace_of(final(diff)@, *final(insert_index), *final(delete_index)),
            x@,
            y@,
        ),
    decreases x@.len(),
{
    let x_len = x.len();
    let y_len = y.len();
    if x_len == 0 {
        do_insert(y, diff, insert_index, Ghost(*delete_index));
    } else if y_len == 0 {
        do_delete(x, diff, insert_index, delete_index);
    } else if x_len == 1 {
        single_old(x, y, diff, insert_index, delete_index);
    } else if y_len == 1 {
        single_new(x, y, diff, insert_index, delete_index);
    } else {
        let x_mid = x_len / 2;
        let score_l = score_row(slice_subrange(x, 0, x_mid), y, scorer);
        let score_r = score_row(slice_subrange(x_rev, 0, x_len - x_mid), y_rev, scorer);
        proof {
            assert(x@.subrange(0, x_mid as int) =~= x@.take(x_mid as int));
            assert(x_rev@.subrange(0, x_len - x_mid) =~= x@.skip(x_mid as int).reverse());
        }
        let y_mid = pick_split(
            &score_l,
            &score_r,
            y_len,
            scorer,
            Ghost(x@),
            Ghost(y@),
            Ghost(x_mid as nat),
        );
        let ghost x_l = x@.take(x_mid as int);
        let ghost x_r = x@.skip(x_mid as int);
        let ghost y_l = y@.take(y_mid as int);
        let ghost y_r = y@.skip(y_mid as int);
        proof {
            lemma_encode_concat(x_l, x_r);
            lemma_encode_concat(y_l, y_r);
            assert(x_l + x_r =~= x@);
            assert(y_l + y_r =~= y@);
            assert(x@.subrange(0, x_mid as int) =~= x_l);
            assert(y@.subrange(0, y_mid as int) =~= y_l);
            assert(x@.subrange(x_mid as int, x_len as int) =~= x_r);
            assert(y@.subrange(y_mid as int, y_len as int) =~= y_r);
            assert(x_rev@.subrange(x_len - x_mid, x_len as int) =~= x_l.reverse());
            assert(y_rev@.subrange(y_len - y_mid, y_len as int) =~= y_l.reverse());
            assert(x_rev@.subrange(0, x_len - x_mid) =~= x_r.reverse());
            assert(y_rev@.subrange(0, y_len - y_mid) =~= y_r.reverse());
        }
        hirschberg(
            slice_subrange(x, 0, x_mid),
            slice_subrange(y, 0, y_mid),
            slice_subrange(x_rev, x_len - x_mid, x_len),
            slice_subrange(y_rev, y_len - y_mid, y_len),
            scorer,
            diff,
            insert_index,
            delete_index,
        );
        hirschberg(
            slice_subrange(x, x_mid, x_len),
            slice_subrange(y, y_mid, y_len),
            slice_subrange(x_rev, 0, x_len - x_mid),
            slice_subrange(y_rev, 0, y_len - y_mid),
            scorer,
            diff,
            insert_index,
            delete_index,
        );
    }
}

/// Finds the difference, character by character, between two strings: a
/// script of inserts and deletes, with positions and lengths in UTF-8 bytes,
/// that the Hirschberg algorithm finds under the scores of `scorer`.
pub fn find_diff<S: OperationScore>(old: &str, new: &str, scorer: &S) -> (diff: Diff)
    requires
        old@.len() + new@.len() <= MAX_CHARS,
    ensures
        diff@ == diff_of(scorer, old@, new@),
        diff@.wf(),
        diff@.apply(encode_utf8(old@)) == Some(encode_utf8(new@)),
{
    proof {
        lemma_find_diff_applies(scorer, old@, new@);
    }
    let old_chars = chars_of(old);
    let new_chars = chars_of(new);
    let old_rev = reversed(&old_chars);
    let new_rev = reversed(&new_chars);
    let mut diff = Diff::new();
    let mut insert_index: usize = 0;
    let mut delete_index: usize = 0;
    proof {
        lemma_byte_len_bounds(old@);
        lemma_byte_len_bounds(new@);
    }
    hirschberg(
        old_chars.as_slice(),
        new_chars.as_slice(),
        old_rev.as_slice(),
        new_rev.as_slice(),
        scorer,
        &mut diff,
        &mut insert_index,
        &mut delete_index,
    );
    diff
}

/// Computes the last row of the Needleman-Wunsch score table for turning
/// `old` into each prefix of `new`.
pub fn nw_score<S: OperationScore>(old: &str, new: &str, scorer: &S) -> (row: Vec<i64>)
    requires
        old@.len() + new@.len() <= MAX_CHARS,
    ensures
        row@.len() == new@.len() + 1,
        forall|j: int|
            0 <= j <= new@.len() ==> #[trigger] row@[j] == nw(
                scorer,
                old@,
                new@,
                old@.len(),
                j as nat,
            ),
{
    let old_chars = chars_of(old);
    let new_chars = chars_of(new);
    score_row(old_chars.as_slice(), new_chars.as_slice(), scorer)
}

/// Whether the trace `t` is that of the alignment `a`: it holds the same
/// script, and its running positions are the lengths of the streams.
pub open spec fn follows(t: Trace, a: Alignment) -> bool {
    &&& t.diff == a.diff
    &&& t.insert_index == a.mid.len()
    &&& a.new.len() <= a.mid.len()
    &&& t.delete_index == a.mid.len() - a.new.len()
}

/// Inserting characters into a trace is inserting their bytes into its
/// alignment.
proof fn lemma_trace_put(t: Trace, a: Alignment, chars: Seq<char>) -> (after: Alignment)
    requires
        follows(t, a),
        a.sound(),
    ensures
        follows(t.put(chars), after),
        after.sound(),
        after.old == a.old,
        after.new == a.new + encode_utf8(chars),
{
    if chars.len() == 0 {
        assert(encode_utf8(chars) =~= Seq::<u8>::empty());
        assert(a.new + encode_utf8(chars) =~= a.new);
        a
    } else {
        lemma_put_sound(a, encode_utf8(chars));
        a.put(encode_utf8(chars))
    }
}

/// Deleting characters in a trace is deleting their bytes in its alignment.
proof fn lemma_trace_cut(t: Trace, a: Alignment, chars: Seq<char>) -> (after: Alignment)
    requires
        follows(t, a),
        a.sound(),
    ensures
        follows(t.cut(chars), after),
        after.sound(),
        after.old == a.old + encode_utf8(chars),
        after.new == a.new,
{
    if chars.len() == 0 {
        assert(encode_utf8(chars) =~= Seq::<u8>::empty());
        assert(a.old + encode_utf8(chars) =~= a.old);
        a
    } else {
        lemma_cut_sound(a, encode_utf8(chars));
        a.cut(encode_utf8(chars))
    }
}

/// Keeping a character in a trace is keeping its bytes in its alignment.
proof fn lemma_trace_keep(t: Trace, a: Alignment, c: char) -> (after: Alignment)
    requires
        follows(t, a),
        a.sound(),
    ensures
        follows(t.keep(c), after),
        after.sound(),
        after.old == a.old + encode_scalar(c as u32),
        after.new == a.new + encode_scalar(c as u32),
{
    lemma_keep_sound(a, encode_scalar(c as u32));
    a.keep(encode_scalar(c as u32))
}

/// Keeping a single old character between inserts follows a sound
/// alignment.
proof fn lemma_keep_between_inserts(old: Seq<char>, new: Seq<char>, t: Trace, a: Alignment) -> (after:
    Alignment)
    requires
        old.len() == 1,
        follows(t, a),
        a.sound(),
    ensures
        follows(keep_between_inserts(old, new, t), after),
        after.sound(),
        after.old == a.old + encode_utf8(old),
        after.new == a.new + encode_utf8(new),
{
    lemma_encode_single(old);
    match first_position(new, old[0], 0) {
        Some(p) => {
            lemma_first_position_in_range(new, old[0], 0);
            lemma_encode_around(new, p as int);
            let a1 = lemma_trace_put(t, a, new.take(p as int));
            let t1 = t.put(new.take(p as int));
            let a2 = lemma_trace_keep(t1, a1, old[0]);
            let t2 = t1.keep(old[0]);
            let a3 = lemma_trace_put(t2, a2, new.skip(p as int + 1));
            assert(a3.new =~= a.new + encode_utf8(new));
            a3
        },
        None => {
            let a1 = lemma_trace_put(t, a, new);
            lemma_trace_cut(t.put(new), a1, old)
        },
    }
}

/// Keeping a single new character between deletes follows a sound
/// alignment.
proof fn lemma_keep_between_deletes(old: Seq<char>, new: Seq<char>, t: Trace, a: Alignment) -> (after:
    Alignment)
    requires
        new.len() == 1,
        follows(t, a),
        a.sound(),
    ensures
        follows(keep_between_deletes(old, new, t), after),
        after.sound(),
        after.old == a.old + encode_utf8(old),
        after.new == a.new + encode_utf8(new),
{
    lemma_encode_single(new);
    match first_position(old, new[0], 0) {
        Some(p) => {
            lemma_first_position_in_range(old, new[0], 0);
            lemma_encode_around(old, p as int);
            let a1 = lemma_trace_cut(t, a, old.take(p as int));
            let t1 = t.cut(old.take(p as int));
            let a2 = lemma_trace_keep(t1, a1, new[0]);
            let t2 = t1.keep(new[0]);
            let a3 = lemma_trace_cut(t2, a2, old.skip(p as int + 1));
            assert(a3.old =~= a.old + encode_utf8(old));
            a3
        },
        None => {
            let a1 = lemma_trace_put(t, a, new);
            lemma_trace_cut(t.put(new), a1, old)
        },
    }
}

/// The trace of the Hirschberg algorithm follows a sound alignment of the
/// bytes of the two strings.
pub proof fn lemma_hirschberg_alignment<S: OperationScore>(
    scorer: &S,
    old: Seq<char>,
    new: Seq<char>,
    t: Trace,
    a: Alignment,
) -> (after: Alignment)
    requires
        follows(t, a),
        a.sound(),
    ensures
        follows(hirschberg_trace(scorer, old, new, t), after),
        after.sound(),
        after.old == a.old + encode_utf8(old),
        after.new == a.new + encode_utf8(new),
    decreases old.len(),
{
    if old.len() == 0 {
        assert(encode_utf8(old) =~= Seq::<u8>::empty());
        assert(a.old + encode_utf8(old) =~= a.old);
        lemma_trace_put(t, a, new)
    } else if new.len() == 0 {
        assert(encode_utf8(new) =~= Seq::<u8>::empty());
        assert(a.new + encode_utf8(new) =~= a.new);
        lemma_trace_cut(t, a, old)
    } else if old.len() == 1 {
        lemma_keep_between_inserts(old, new, t, a)
    } else if new.len() == 1 {
        lemma_keep_between_deletes(old, new, t, a)
    } else {
        let mid = old.len() / 2;
        let split = best_split(scorer, old, new, mid, new.len());
        lemma_best_split_in_range(scorer, old, new, mid, new.len());
        let old_l = old.take(mid as int);
        let old_r = old.skip(mid as int);
        let new_l = new.take(split as int);
        let new_r = new.skip(split as int);
        lemma_encode_concat(old_l, old_r);
        lemma_encode_concat(new_l, new_r);
        assert(old_l + old_r =~= old);
        assert(new_l + new_r =~= new);
        let a1 = lemma_hirschberg_alignment(scorer, old_l, new_l, t, a);
        let t1 = hirschberg_trace(scorer, old_l, new_l, t);
        let a2 = lemma_hirschberg_alignment(scorer, old_r, new_r, t1, a1);
        assert(a2.old =~= a.old + encode_utf8(old));
        assert(a2.new =~= a.new + encode_utf8(new));
        a2
    }
}

/// Applying the script that the Hirschberg algorithm gives for two strings
/// to the bytes of the old string gives the bytes of the new one, whatever
/// the scores are.  Those bytes are valid UTF-8 and decode to the new string,
/// so applying the script to the old string gives the new string.
pub proof fn lemma_find_diff_applies<S: OperationScore>(scorer: &S, old: Seq<char>, new: Seq<char>)
    ensures
        diff_of(scorer, old, new).apply(encode_utf8(old)) == Some(encode_utf8(new)),
        vstd::utf8::valid_utf8(encode_utf8(new)),
        vstd::utf8::decode_utf8(encode_utf8(new)) == new,
{
    vstd::utf8::encode_utf8_valid_utf8(new);
    vstd::utf8::encode_utf8_decode_utf8(new);
    lemma_start_sound();
    let after = lemma_hirschberg_alignment(scorer, old, new, Trace::start(), Alignment::start());
    lemma_sound_applies(after);
    assert(after.old =~= encode_utf8(old));
    assert(after.new =~= encode_utf8(new));
}

} // verus!
