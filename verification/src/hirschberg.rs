//! The Hirschberg algorithm: its entry points, and why its script is as
//! short as can be under the classical edit distance.
//!
//! A score of the Needleman-Wunsch table is the best score of any path of
//! single steps that turns one string into the other.  Paths can be joined,
//! cut and reversed, which is what the algorithm relies on when it halves
//! the old string and scores the right halves backwards.
use crate::diff::{DeleteView, DiffView, InsertView};
use crate::string_diff::{
    best_split, diff_of, first_position, hirschberg_trace, keep_between_deletes,
    keep_between_inserts, lemma_best_split_in_range, lemma_first_position_in_range, nw, pair_score,
    split_total, Trace,
};
pub use crate::string_diff::{
    find_diff, hirschberg, nw_score, score_row, EditDistance, OperationScore,
};
use crate::utf8::byte_len;
use vstd::prelude::*;
use vstd::utf8::{encode_utf8, is_ascii_chars, is_ascii_chars_encode_utf8};

verus! {

/// One step on the way from an old string to a new one.
pub enum Step {
    /// An old character is lined up with a new one: kept if they are the
    /// same, replaced otherwise.
    Pair(char, char),
    /// An old character is deleted.
    Delete(char),
    /// A new character is inserted.
    Insert(char),
}

/// The score of one step.
pub open spec fn step_score<S: OperationScore>(scorer: &S, step: Step) -> int {
    match step {
        Step::Pair(x, y) => pair_score(scorer, x, y),
        Step::Delete(x) => scorer.spec_delete_score(x) as int,
        Step::Insert(y) => scorer.spec_insert_score(y) as int,
    }
}

/// The old characters that one step takes.
pub open spec fn step_old(step: Step) -> Seq<char> {
    match step {
        Step::Pair(x, y) => seq![x],
        Step::Delete(x) => seq![x],
        Step::Insert(y) => Seq::empty(),
    }
}

/// The new characters that one step gives.
pub open spec fn step_new(step: Step) -> Seq<char> {
    match step {
        Step::Pair(x, y) => seq![y],
        Step::Delete(x) => Seq::empty(),
        Step::Insert(y) => seq![y],
    }
}

/// The old string that a path of steps takes.
pub open spec fn path_old(path: Seq<Step>) -> Seq<char>
    decreases path.len(),
{
    if path.len() == 0 {
        Seq::empty()
    } else {
        path_old(path.drop_last()) + step_old(path.last())
    }
}

/// The new string that a path of steps gives.
pub open spec fn path_new(path: Seq<Step>) -> Seq<char>
    decreases path.len(),
{
    if path.len() == 0 {
        Seq::empty()
    } else {
        path_new(path.drop_last()) + step_new(path.last())
    }
}

/// The total score of a path of steps.
pub open spec fn path_score<S: OperationScore>(scorer: &S, path: Seq<Step>) -> int
    decreases path.len(),
{
    if path.len() == 0 {
        0
    } else {
        path_score(scorer, path.drop_last()) + step_score(scorer, path.last())
    }
}

/// The score of turning all of `old` into all of `new`.
pub open spec fn nw_total<S: OperationScore>(scorer: &S, old: Seq<char>, new: Seq<char>) -> int {
    nw(scorer, old, new, old.len(), new.len())
}

/// The score table depends only on the characters it covers.
pub proof fn lemma_nw_prefix<S: OperationScore>(
    scorer: &S,
    old: Seq<char>,
    new: Seq<char>,
    old2: Seq<char>,
    new2: Seq<char>,
    i: nat,
    j: nat,
)
    requires
        i <= old.len(),
        i <= old2.len(),
        j <= new.len(),
        j <= new2.len(),
        old.take(i as int) == old2.take(i as int),
        new.take(j as int) == new2.take(j as int),
    ensures
        nw(scorer, old, new, i, j) == nw(scorer, old2, new2, i, j),
    decreases i + j,
{
    if i > 0 {
        assert(old[i - 1] == old.take(i as int)[i - 1]);
        assert(old2[i - 1] == old2.take(i as int)[i - 1]);
        assert(old.take(i - 1) =~= old.take(i as int).take(i - 1));
        assert(old2.take(i - 1) =~= old2.take(i as int).take(i - 1));
    }
    if j > 0 {
        assert(new[j - 1] == new.take(j as int)[j - 1]);
        assert(new2[j - 1] == new2.take(j as int)[j - 1]);
        assert(new.take(j - 1) =~= new.take(j as int).take(j - 1));
        assert(new2.take(j - 1) =~= new2.take(j as int).take(j - 1));
    }
    if i == 0 && j == 0 {
    } else if i == 0 {
        lemma_nw_prefix(scorer, old, new, old2, new2, 0, (j - 1) as nat);
    } else if j == 0 {
        lemma_nw_prefix(scorer, old, new, old2, new2, (i - 1) as nat, 0);
    } else {
        lemma_nw_prefix(scorer, old, new, old2, new2, (i - 1) as nat, (j - 1) as nat);
        lemma_nw_prefix(scorer, old, new, old2, new2, (i - 1) as nat, j);
        lemma_nw_prefix(scorer, old, new, old2, new2, i, (j - 1) as nat);
    }
}

/// The score of prefixes is the total score of those prefixes taken alone.
pub proof fn lemma_nw_of_prefixes<S: OperationScore>(
    scorer: &S,
    old: Seq<char>,
    new: Seq<char>,
    i: nat,
    j: nat,
)
    requires
        i <= old.len(),
        j <= new.len(),
    ensures
        nw(scorer, old, new, i, j) == nw_total(scorer, old.take(i as int), new.take(j as int)),
{
    assert(old.take(i as int).take(i as int) =~= old.take(i as int));
    assert(new.take(j as int).take(j as int) =~= new.take(j as int));
    lemma_nw_prefix(scorer, old, new, old.take(i as int), new.take(j as int), i, j);
}

/// Two paths joined take and give the joined strings and score the sum.
pub proof fn lemma_path_concat<S: OperationScore>(scorer: &S, left: Seq<Step>, right: Seq<Step>)
    ensures
        path_old(left + right) == path_old(left) + path_old(right),
        path_new(left + right) == path_new(left) + path_new(right),
        path_score(scorer, left + right) == path_score(scorer, left) + path_score(scorer, right),
    decreases right.len(),
{
    if right.len() == 0 {
        assert(left + right =~= left);
        assert(path_old(left) + path_old(right) =~= path_old(left));
        assert(path_new(left) + path_new(right) =~= path_new(left));
    } else {
        lemma_path_concat(scorer, left, right.drop_last());
        assert((left + right).drop_last() =~= left + right.drop_last());
        assert((left + right).last() == right.last());
        assert(path_old(left + right) =~= path_old(left) + path_old(right));
        assert(path_new(left + right) =~= path_new(left) + path_new(right));
    }
}

/// No path scores more than the table says for the strings it takes and
/// gives.
pub proof fn lemma_path_score_bound<S: OperationScore>(scorer: &S, path: Seq<Step>)
    ensures
        path_score(scorer, path) <= nw_total(scorer, path_old(path), path_new(path)),
    decreases path.len(),
{
    if path.len() > 0 {
        let init = path.drop_last();
        lemma_path_score_bound(scorer, init);
        let old = path_old(path);
        let new = path_new(path);
        let old0 = path_old(init);
        let new0 = path_new(init);
        match path.last() {
            Step::Pair(x, y) => {
                assert(old =~= old0.push(x));
                assert(new =~= new0.push(y));
                assert(old.take(old0.len() as int) =~= old0);
                assert(new.take(new0.len() as int) =~= new0);
                lemma_nw_of_prefixes(scorer, old, new, old0.len(), new0.len());
            },
            Step::Delete(x) => {
                assert(old =~= old0.push(x));
                assert(new =~= new0);
                assert(old.take(old0.len() as int) =~= old0);
                assert(new.take(new0.len() as int) =~= new0);
                lemma_nw_of_prefixes(scorer, old, new, old0.len(), new0.len());
            },
            Step::Insert(y) => {
                assert(old =~= old0);
                assert(new =~= new0.push(y));
                assert(old.take(old0.len() as int) =~= old0);
                assert(new.take(new0.len() as int) =~= new0);
                lemma_nw_of_prefixes(scorer, old, new, old0.len(), new0.len());
            },
        }
    }
}

/// The character of `s` at `i`.
pub open spec fn char_at(s: Seq<char>, i: int) -> char {
    s[i]
}

/// A path that scores what the table says: at each entry it takes the step
/// that gives the entry its score.
pub open spec fn best_path<S: OperationScore>(
    scorer: &S,
    old: Seq<char>,
    new: Seq<char>,
    i: nat,
    j: nat,
) -> Seq<Step>
    decreases i + j,
{
    if i == 0 && j == 0 {
        Seq::empty()
    } else if i == 0 {
        best_path(scorer, old, new, 0, (j - 1) as nat).push(Step::Insert(char_at(new, j - 1)))
    } else if j == 0 {
        best_path(scorer, old, new, (i - 1) as nat, 0).push(Step::Delete(char_at(old, i - 1)))
    } else {
        let by_pair = nw(scorer, old, new, (i - 1) as nat, (j - 1) as nat) + pair_score(
            scorer,
            old[i - 1],
            new[j - 1],
        );
        let by_delete = nw(scorer, old, new, (i - 1) as nat, j) + scorer.spec_delete_score(
            old[i - 1],
        );
        let by_insert = nw(scorer, old, new, i, (j - 1) as nat) + scorer.spec_insert_score(
            new[j - 1],
        );
        if by_pair >= by_delete && by_pair >= by_insert {
            best_path(scorer, old, new, (i - 1) as nat, (j - 1) as nat).push(
                Step::Pair(char_at(old, i - 1), char_at(new, j - 1)),
            )
        } else if by_delete >= by_insert {
            best_path(scorer, old, new, (i - 1) as nat, j).push(Step::Delete(char_at(old, i - 1)))
        } else {
            best_path(scorer, old, new, i, (j - 1) as nat).push(Step::Insert(char_at(new, j - 1)))
        }
    }
}

/// The best path takes and gives the prefixes that its entry covers, and
/// scores what the table says.
pub proof fn lemma_best_path<S: OperationScore>(
    scorer: &S,
    old: Seq<char>,
    new: Seq<char>,
    i: nat,
    j: nat,
)
    requires
        i <= old.len(),
        j <= new.len(),
    ensures
        path_old(best_path(scorer, old, new, i, j)) == old.take(i as int),
        path_new(best_path(scorer, old, new, i, j)) == new.take(j as int),
        path_score(scorer, best_path(scorer, old, new, i, j)) == nw(scorer, old, new, i, j),
    decreases i + j,
{
    if i == 0 && j == 0 {
        assert(old.take(0) =~= Seq::<char>::empty());
        assert(new.take(0) =~= Seq::<char>::empty());
    } else if i == 0 {
        lemma_best_path(scorer, old, new, 0, (j - 1) as nat);
        let init = best_path(scorer, old, new, 0, (j - 1) as nat);
        let path = init.push(Step::Insert(char_at(new, j - 1)));
        assert(path.len() == init.len() + 1);
        assert(path.drop_last() =~= init);
        assert(old.take(0) =~= old.take(0) + Seq::<char>::empty());
        assert(new.take(j as int) =~= new.take(j - 1) + seq![new[j - 1]]);
    } else if j == 0 {
        lemma_best_path(scorer, old, new, (i - 1) as nat, 0);
        let init = best_path(scorer, old, new, (i - 1) as nat, 0);
        let path = init.push(Step::Delete(char_at(old, i - 1)));
        assert(path.len() == init.len() + 1);
        assert(path.drop_last() =~= init);
        assert(old.take(i as int) =~= old.take(i - 1) + seq![old[i - 1]]);
        assert(new.take(0) =~= new.take(0) + Seq::<char>::empty());
    } else {
        let by_pair = nw(scorer, old, new, (i - 1) as nat, (j - 1) as nat) + pair_score(
            scorer,
            old[i - 1],
            new[j - 1],
        );
        let by_delete = nw(scorer, old, new, (i - 1) as nat, j) + scorer.spec_delete_score(
            old[i - 1],
        );
        let by_insert = nw(scorer, old, new, i, (j - 1) as nat) + scorer.spec_insert_score(
            new[j - 1],
        );
        if by_pair >= by_delete && by_pair >= by_insert {
            lemma_best_path(scorer, old, new, (i - 1) as nat, (j - 1) as nat);
            let init = best_path(scorer, old, new, (i - 1) as nat, (j - 1) as nat);
            let path = init.push(Step::Pair(char_at(old, i - 1), char_at(new, j - 1)));
            assert(path.len() == init.len() + 1);
        assert(path.drop_last() =~= init);
            assert(old.take(i as int) =~= old.take(i - 1) + seq![old[i - 1]]);
            assert(new.take(j as int) =~= new.take(j - 1) + seq![new[j - 1]]);
        } else if by_delete >= by_insert {
            lemma_best_path(scorer, old, new, (i - 1) as nat, j);
            let init = best_path(scorer, old, new, (i - 1) as nat, j);
            let path = init.push(Step::Delete(char_at(old, i - 1)));
            assert(path.len() == init.len() + 1);
        assert(path.drop_last() =~= init);
            assert(old.take(i as int) =~= old.take(i - 1) + seq![old[i - 1]]);
            assert(new.take(j as int) =~= new.take(j as int) + Seq::<char>::empty());
        } else {
            lemma_best_path(scorer, old, new, i, (j - 1) as nat);
            let init = best_path(scorer, old, new, i, (j - 1) as nat);
            let path = init.push(Step::Insert(char_at(new, j - 1)));
            assert(path.len() == init.len() + 1);
        assert(path.drop_last() =~= init);
            assert(old.take(i as int) =~= old.take(i as int) + Seq::<char>::empty());
            assert(new.take(j as int) =~= new.take(j - 1) + seq![new[j - 1]]);
        }
    }
}


/// A path of one step takes, gives and scores what the step does.
pub proof fn lemma_path_single<S: OperationScore>(scorer: &S, step: Step)
    ensures
        path_old(seq![step]) == step_old(step),
        path_new(seq![step]) == step_new(step),
        path_score(scorer, seq![step]) == step_score(scorer, step),
{
    let path = seq![step];
    assert(path.drop_last() =~= Seq::<Step>::empty());
    assert(path.last() == step);
    assert(path_old(Seq::<Step>::empty()) =~= Seq::<char>::empty());
    assert(path_new(Seq::<Step>::empty()) =~= Seq::<char>::empty());
    assert(path_score(scorer, Seq::<Step>::empty()) == 0);
    assert(path_old(path) =~= step_old(step));
    assert(path_new(path) =~= step_new(step));
}

/// A path walked backwards takes and gives the strings reversed and scores
/// the same.
pub proof fn lemma_path_reverse<S: OperationScore>(scorer: &S, path: Seq<Step>)
    ensures
        path_old(path.reverse()) == path_old(path).reverse(),
        path_new(path.reverse()) == path_new(path).reverse(),
        path_score(scorer, path.reverse()) == path_score(scorer, path),
    decreases path.len(),
{
    if path.len() == 0 {
        assert(path.reverse() =~= path);
        assert(path_old(path).reverse() =~= path_old(path));
        assert(path_new(path).reverse() =~= path_new(path));
    } else {
        let init = path.drop_last();
        let step = path.last();
        lemma_path_reverse(scorer, init);
        lemma_path_single(scorer, step);
        lemma_path_concat(scorer, seq![step], init.reverse());
        assert(path.reverse() =~= seq![step] + init.reverse());
        assert(step_old(step).reverse() =~= step_old(step));
        assert(step_new(step).reverse() =~= step_new(step));
        assert((path_old(init) + step_old(step)).reverse() =~= step_old(step) + path_old(
            init,
        ).reverse());
        assert((path_new(init) + step_new(step)).reverse() =~= step_new(step) + path_new(
            init,
        ).reverse());
    }
}

/// Turning a string reversed into another reversed scores at least as much
/// as turning the one into the other.
proof fn lemma_nw_reverse_le<S: OperationScore>(scorer: &S, old: Seq<char>, new: Seq<char>)
    ensures
        nw_total(scorer, old, new) <= nw_total(scorer, old.reverse(), new.reverse()),
{
    let path = best_path(scorer, old, new, old.len(), new.len());
    lemma_best_path(scorer, old, new, old.len(), new.len());
    assert(old.take(old.len() as int) =~= old);
    assert(new.take(new.len() as int) =~= new);
    lemma_path_reverse(scorer, path);
    lemma_path_score_bound(scorer, path.reverse());
}

/// The score of turning one string into another is the score of turning the
/// one reversed into the other reversed.
pub proof fn lemma_nw_reverse<S: OperationScore>(scorer: &S, old: Seq<char>, new: Seq<char>)
    ensures
        nw_total(scorer, old.reverse(), new.reverse()) == nw_total(scorer, old, new),
{
    lemma_nw_reverse_le(scorer, old, new);
    lemma_nw_reverse_le(scorer, old.reverse(), new.reverse());
    assert(old.reverse().reverse() =~= old);
    assert(new.reverse().reverse() =~= new);
}

/// Two strings joined are turned into two others joined at least as well as
/// part by part.
pub proof fn lemma_nw_concat<S: OperationScore>(
    scorer: &S,
    old_l: Seq<char>,
    new_l: Seq<char>,
    old_r: Seq<char>,
    new_r: Seq<char>,
)
    ensures
        nw_total(scorer, old_l, new_l) + nw_total(scorer, old_r, new_r) <= nw_total(
            scorer,
            old_l + old_r,
            new_l + new_r,
        ),
{
    let left = best_path(scorer, old_l, new_l, old_l.len(), new_l.len());
    let right = best_path(scorer, old_r, new_r, old_r.len(), new_r.len());
    lemma_best_path(scorer, old_l, new_l, old_l.len(), new_l.len());
    lemma_best_path(scorer, old_r, new_r, old_r.len(), new_r.len());
    assert(old_l.take(old_l.len() as int) =~= old_l);
    assert(new_l.take(new_l.len() as int) =~= new_l);
    assert(old_r.take(old_r.len() as int) =~= old_r);
    assert(new_r.take(new_r.len() as int) =~= new_r);
    lemma_path_concat(scorer, left, right);
    lemma_path_score_bound(scorer, left + right);
}

/// A path can be cut where it has taken exactly `i` old characters.
pub proof fn lemma_path_cut(path: Seq<Step>, i: nat) -> (k: nat)
    requires
        i <= path_old(path).len(),
    ensures
        k <= path.len(),
        path_old(path.take(k as int)).len() == i,
    decreases path.len(),
{
    if path_old(path).len() == i {
        assert(path.take(path.len() as int) =~= path);
        path.len()
    } else {
        let init = path.drop_last();
        let k = lemma_path_cut(init, i);
        assert(path.take(k as int) =~= init.take(k as int));
        k
    }
}

/// Wherever the old string is cut, the new string can be cut so that the
/// two parts are turned into each other as well as the whole.
pub proof fn lemma_nw_split<S: OperationScore>(
    scorer: &S,
    old: Seq<char>,
    new: Seq<char>,
    i: nat,
) -> (j: nat)
    requires
        i <= old.len(),
    ensures
        j <= new.len(),
        nw_total(scorer, old, new) <= nw_total(scorer, old.take(i as int), new.take(j as int))
            + nw_total(scorer, old.skip(i as int), new.skip(j as int)),
{
    let path = best_path(scorer, old, new, old.len(), new.len());
    lemma_best_path(scorer, old, new, old.len(), new.len());
    assert(old.take(old.len() as int) =~= old);
    assert(new.take(new.len() as int) =~= new);
    let k = lemma_path_cut(path, i);
    let left = path.take(k as int);
    let right = path.skip(k as int);
    assert(left + right =~= path);
    lemma_path_concat(scorer, left, right);
    lemma_path_score_bound(scorer, left);
    lemma_path_score_bound(scorer, right);
    let j = path_new(left).len();
    assert(path_old(left) =~= old.take(i as int));
    assert(path_old(right) =~= old.skip(i as int));
    assert(path_new(left) =~= new.take(j as int));
    assert(path_new(right) =~= new.skip(j as int));
    j
}


/// The total score of a split is the score of the left halves plus the
/// score of the right halves, each pair taken alone.
pub proof fn lemma_split_total<S: OperationScore>(
    scorer: &S,
    old: Seq<char>,
    new: Seq<char>,
    mid: nat,
    j: nat,
)
    requires
        mid <= old.len(),
        j <= new.len(),
    ensures
        split_total(scorer, old, new, mid, j) == nw_total(
            scorer,
            old.take(mid as int),
            new.take(j as int),
        ) + nw_total(scorer, old.skip(mid as int), new.skip(j as int)),
{
    let old_l = old.take(mid as int);
    let old_r = old.skip(mid as int);
    lemma_nw_of_prefixes(scorer, old_l, new, mid, j);
    assert(old_l.take(mid as int) =~= old_l);
    let back_old = old_r.reverse();
    let back_new = new.reverse();
    lemma_nw_of_prefixes(
        scorer,
        back_old,
        back_new,
        (old.len() - mid) as nat,
        (new.len() - j) as nat,
    );
    assert(back_old.take(old.len() - mid) =~= back_old);
    assert(back_new.take(new.len() - j) =~= new.skip(j as int).reverse());
    lemma_nw_reverse(scorer, old_r, new.skip(j as int));
}

/// The best split scores at least as much as any split before it.
pub proof fn lemma_best_split_is_best<S: OperationScore>(
    scorer: &S,
    old: Seq<char>,
    new: Seq<char>,
    mid: nat,
    upto: nat,
    k: nat,
)
    requires
        k <= upto,
    ensures
        split_total(scorer, old, new, mid, k) <= split_total(
            scorer,
            old,
            new,
            mid,
            best_split(scorer, old, new, mid, upto),
        ),
    decreases upto,
{
    if upto > 0 && k < upto {
        lemma_best_split_is_best(scorer, old, new, mid, (upto - 1) as nat, k);
    }
}

/// At the best split, the two halves are turned into each other as well as
/// the whole strings are.
pub proof fn lemma_best_split_keeps_score<S: OperationScore>(
    scorer: &S,
    old: Seq<char>,
    new: Seq<char>,
    mid: nat,
)
    requires
        mid <= old.len(),
    ensures
        ({
            let split = best_split(scorer, old, new, mid, new.len());
            &&& split <= new.len()
            &&& nw_total(scorer, old, new) == nw_total(
                scorer,
                old.take(mid as int),
                new.take(split as int),
            ) + nw_total(scorer, old.skip(mid as int), new.skip(split as int))
        }),
{
    let split = best_split(scorer, old, new, mid, new.len());
    lemma_best_split_in_range(scorer, old, new, mid, new.len());
    lemma_split_total(scorer, old, new, mid, split);
    lemma_nw_concat(
        scorer,
        old.take(mid as int),
        new.take(split as int),
        old.skip(mid as int),
        new.skip(split as int),
    );
    assert(old.take(mid as int) + old.skip(mid as int) =~= old);
    assert(new.take(split as int) + new.skip(split as int) =~= new);
    let j = lemma_nw_split(scorer, old, new, mid);
    lemma_split_total(scorer, old, new, mid, j);
    lemma_best_split_is_best(scorer, old, new, mid, new.len(), j);
}

/// The edit distance between the first `i` characters of `old` and the first
/// `j` of `new`: the least number of characters to insert and delete, a
/// replaced character counting as one of each.
pub open spec fn edit_distance(old: Seq<char>, new: Seq<char>, i: nat, j: nat) -> int
    decreases i + j,
{
    if i == 0 {
        j as int
    } else if j == 0 {
        i as int
    } else {
        let by_pair = edit_distance(old, new, (i - 1) as nat, (j - 1) as nat) + if old[i - 1]
            == new[j - 1] {
            0int
        } else {
            2int
        };
        let by_delete = edit_distance(old, new, (i - 1) as nat, j) + 1;
        let by_insert = edit_distance(old, new, i, (j - 1) as nat) + 1;
        if by_pair <= by_delete && by_pair <= by_insert {
            by_pair
        } else if by_delete <= by_insert {
            by_delete
        } else {
            by_insert
        }
    }
}

/// Under the classical scores, the score table holds the edit distances,
/// negated.
pub proof fn lemma_nw_is_edit_distance(old: Seq<char>, new: Seq<char>, i: nat, j: nat)
    ensures
        nw(&EditDistance, old, new, i, j) == -edit_distance(old, new, i, j),
    decreases i + j,
{
    if i == 0 && j == 0 {
    } else if i == 0 {
        lemma_nw_is_edit_distance(old, new, 0, (j - 1) as nat);
    } else if j == 0 {
        lemma_nw_is_edit_distance(old, new, (i - 1) as nat, 0);
    } else {
        lemma_nw_is_edit_distance(old, new, (i - 1) as nat, (j - 1) as nat);
        lemma_nw_is_edit_distance(old, new, (i - 1) as nat, j);
        lemma_nw_is_edit_distance(old, new, i, (j - 1) as nat);
    }
}

/// The edit distance from a single character to the first `j` characters
/// of a string: one less than `j` if they hold the character, one more if
/// they do not.
pub proof fn lemma_distance_from_single(old: Seq<char>, new: Seq<char>, j: nat)
    requires
        old.len() == 1,
        j <= new.len(),
    ensures
        edit_distance(old, new, 1, j) == match first_position(new.take(j as int), old[0], 0) {
            Some(p) => j - 1,
            None => j as int + 1,
        },
    decreases j,
{
    let here = first_position(new.take(j as int), old[0], 0);
    lemma_first_position_is(new.take(j as int), old[0], 0);
    if j > 0 {
        assert(edit_distance(old, new, 0, (j - 1) as nat) == j - 1);
        assert(edit_distance(old, new, 0, j) == j);
        lemma_distance_from_single(old, new, (j - 1) as nat);
        let before = first_position(new.take(j - 1), old[0], 0);
        lemma_first_position_is(new.take(j - 1), old[0], 0);
        assert(new.take(j - 1) =~= new.take(j as int).take(j - 1));
        assert(new.take(j as int)[j - 1] == new[j - 1]);
        if before is Some {
            assert(new.take(j as int)[before->0 as int] == old[0]);
        }
        if here is Some && here->0 < j - 1 {
            assert(new.take(j - 1)[here->0 as int] == old[0]);
        }
    }
}

/// The edit distance from the first `i` characters of a string to a single
/// character: one less than `i` if they hold the character, one more if
/// they do not.
pub proof fn lemma_distance_to_single(old: Seq<char>, new: Seq<char>, i: nat)
    requires
        new.len() == 1,
        i <= old.len(),
    ensures
        edit_distance(old, new, i, 1) == match first_position(old.take(i as int), new[0], 0) {
            Some(p) => i - 1,
            None => i as int + 1,
        },
    decreases i,
{
    let here = first_position(old.take(i as int), new[0], 0);
    lemma_first_position_is(old.take(i as int), new[0], 0);
    if i > 0 {
        assert(edit_distance(old, new, (i - 1) as nat, 0) == i - 1);
        assert(edit_distance(old, new, i, 0) == i);
        lemma_distance_to_single(old, new, (i - 1) as nat);
        let before = first_position(old.take(i - 1), new[0], 0);
        lemma_first_position_is(old.take(i - 1), new[0], 0);
        assert(old.take(i - 1) =~= old.take(i as int).take(i - 1));
        assert(old.take(i as int)[i - 1] == old[i - 1]);
        if before is Some {
            assert(old.take(i as int)[before->0 as int] == new[0]);
        }
        if here is Some && here->0 < i - 1 {
            assert(old.take(i - 1)[here->0 as int] == new[0]);
        }
    }
}

/// What `first_position` finds: the least position from `from` on that
/// holds the character, if any does.
pub proof fn lemma_first_position_is(s: Seq<char>, c: char, from: nat)
    ensures
        match first_position(s, c, from) {
            Some(p) => from <= p < s.len() && s[p as int] == c && forall|q: int|
                from <= q < p ==> s[q] != c,
            None => forall|q: int| from <= q < s.len() ==> s[q] != c,
        },
    decreases s.len() - from,
{
    if from < s.len() && s[from as int] != c {
        lemma_first_position_is(s, c, from + 1);
    }
}


/// The number of bytes that the inserts put in.
pub open spec fn inserted(inserts: Seq<InsertView>) -> nat
    decreases inserts.len(),
{
    if inserts.len() == 0 {
        0
    } else {
        inserted(inserts.drop_last()) + inserts.last().data.len()
    }
}

/// The number of bytes that the deletes take out.
pub open spec fn deleted(deletes: Seq<DeleteView>) -> nat
    decreases deletes.len(),
{
    if deletes.len() == 0 {
        0
    } else {
        deleted(deletes.drop_last()) + deletes.last().len
    }
}

/// The size of a script: the bytes it inserts plus the bytes it deletes.
pub open spec fn script_size(diff: DiffView) -> nat {
    inserted(diff.inserts) + deleted(diff.deletes)
}

/// Adding an insert to a script adds its bytes to the size, merged or not.
pub proof fn lemma_size_add_insert(diff: DiffView, position: nat, data: Seq<u8>)
    ensures
        script_size(diff.add_insert(position, data)) == script_size(diff) + data.len(),
{
    let after = diff.add_insert(position, data);
    if diff.inserts.len() > 0 && diff.inserts.last().end() == position {
        assert(after.inserts.drop_last() =~= diff.inserts.drop_last());
    } else {
        assert(after.inserts.drop_last() =~= diff.inserts);
    }
}

/// Adding a delete to a script adds its length to the size, merged or not.
pub proof fn lemma_size_add_delete(diff: DiffView, position: nat, len: nat)
    ensures
        script_size(diff.add_delete(position, len)) == script_size(diff) + len,
{
    let after = diff.add_delete(position, len);
    if diff.deletes.len() > 0 && diff.deletes.last().position == position {
        assert(after.deletes.drop_last() =~= diff.deletes.drop_last());
    } else {
        assert(after.deletes.drop_last() =~= diff.deletes);
    }
}

/// Inserting ASCII characters adds one byte each to the size.
proof fn lemma_size_put(t: Trace, chars: Seq<char>)
    requires
        is_ascii_chars(chars),
    ensures
        script_size(t.put(chars).diff) == script_size(t.diff) + chars.len(),
{
    is_ascii_chars_encode_utf8(chars);
    if chars.len() > 0 {
        lemma_size_add_insert(t.diff, t.insert_index, encode_utf8(chars));
    }
}

/// Deleting ASCII characters adds one byte each to the size.
proof fn lemma_size_cut(t: Trace, chars: Seq<char>)
    requires
        is_ascii_chars(chars),
    ensures
        script_size(t.cut(chars).diff) == script_size(t.diff) + chars.len(),
{
    is_ascii_chars_encode_utf8(chars);
    if chars.len() > 0 {
        lemma_size_add_delete(
            t.diff,
            (t.insert_index - t.delete_index) as nat,
            byte_len(chars),
        );
    }
}

/// Keeping a single old character between inserts adds the edit distance
/// to the size.
proof fn lemma_size_between_inserts(old: Seq<char>, new: Seq<char>, t: Trace)
    requires
        old.len() == 1,
        is_ascii_chars(old),
        is_ascii_chars(new),
    ensures
        script_size(keep_between_inserts(old, new, t).diff) == script_size(t.diff)
            + edit_distance(old, new, 1, new.len()),
{
    lemma_distance_from_single(old, new, new.len());
    assert(new.take(new.len() as int) =~= new);
    match first_position(new, old[0], 0) {
        Some(p) => {
            lemma_first_position_in_range(new, old[0], 0);
            let before = new.take(p as int);
            let after = new.skip(p as int + 1);
            assert(is_ascii_chars(before)) by {
                assert forall|i: int| 0 <= i < before.len() implies '\0' <= #[trigger] before[i]
                    <= '\u{7f}' by {
                    assert(before[i] == new[i]);
                }
            }
            assert(is_ascii_chars(after)) by {
                assert forall|i: int| 0 <= i < after.len() implies '\0' <= #[trigger] after[i]
                    <= '\u{7f}' by {
                    assert(after[i] == new[p + 1 + i]);
                }
            }
            let t1 = t.put(before);
            lemma_size_put(t, before);
            let t2 = t1.keep(old[0]);
            lemma_size_put(t2, after);
        },
        None => {
            lemma_size_put(t, new);
            lemma_size_cut(t.put(new), old);
        },
    }
}

/// Keeping a single new character between deletes adds the edit distance
/// to the size.
proof fn lemma_size_between_deletes(old: Seq<char>, new: Seq<char>, t: Trace)
    requires
        new.len() == 1,
        is_ascii_chars(old),
        is_ascii_chars(new),
    ensures
        script_size(keep_between_deletes(old, new, t).diff) == script_size(t.diff)
            + edit_distance(old, new, old.len(), 1),
{
    lemma_distance_to_single(old, new, old.len());
    assert(old.take(old.len() as int) =~= old);
    match first_position(old, new[0], 0) {
        Some(p) => {
            lemma_first_position_in_range(old, new[0], 0);
            let before = old.take(p as int);
            let after = old.skip(p as int + 1);
            assert(is_ascii_chars(before)) by {
                assert forall|i: int| 0 <= i < before.len() implies '\0' <= #[trigger] before[i]
                    <= '\u{7f}' by {
                    assert(before[i] == old[i]);
                }
            }
            assert(is_ascii_chars(after)) by {
                assert forall|i: int| 0 <= i < after.len() implies '\0' <= #[trigger] after[i]
                    <= '\u{7f}' by {
                    assert(after[i] == old[p + 1 + i]);
                }
            }
            let t1 = t.cut(before);
            lemma_size_cut(t, before);
            let t2 = t1.keep(new[0]);
            lemma_size_cut(t2, after);
        },
        None => {
            lemma_size_put(t, new);
            lemma_size_cut(t.put(new), old);
        },
    }
}

/// The part of an ASCII string before a cut, and the part after it, are
/// ASCII.
proof fn lemma_ascii_parts(s: Seq<char>, at: int)
    requires
        is_ascii_chars(s),
        0 <= at <= s.len(),
    ensures
        is_ascii_chars(s.take(at)),
        is_ascii_chars(s.skip(at)),
{
    assert forall|i: int| 0 <= i < s.take(at).len() implies '\0' <= #[trigger] s.take(at)[i]
        <= '\u{7f}' by {
        assert(s.take(at)[i] == s[i]);
    }
    assert forall|i: int| 0 <= i < s.skip(at).len() implies '\0' <= #[trigger] s.skip(at)[i]
        <= '\u{7f}' by {
        assert(s.skip(at)[i] == s[at + i]);
    }
}

/// Under the classical scores, the Hirschberg algorithm adds to the size of
/// the script exactly the edit distance between the two strings.
pub proof fn lemma_hirschberg_size(old: Seq<char>, new: Seq<char>, t: Trace)
    requires
        is_ascii_chars(old),
        is_ascii_chars(new),
    ensures
        script_size(hirschberg_trace(&EditDistance, old, new, t).diff) == script_size(t.diff)
            + edit_distance(old, new, old.len(), new.len()),
    decreases old.len(),
{
    if old.len() == 0 {
        lemma_size_put(t, new);
    } else if new.len() == 0 {
        lemma_size_cut(t, old);
    } else if old.len() == 1 {
        lemma_size_between_inserts(old, new, t);
    } else if new.len() == 1 {
        lemma_size_between_deletes(old, new, t);
    } else {
        let scorer = &EditDistance;
        let mid = old.len() / 2;
        let split = best_split(scorer, old, new, mid, new.len());
        lemma_best_split_keeps_score(scorer, old, new, mid);
        let old_l = old.take(mid as int);
        let old_r = old.skip(mid as int);
        let new_l = new.take(split as int);
        let new_r = new.skip(split as int);
        lemma_ascii_parts(old, mid as int);
        lemma_ascii_parts(new, split as int);
        lemma_nw_is_edit_distance(old, new, old.len(), new.len());
        lemma_nw_is_edit_distance(old_l, new_l, old_l.len(), new_l.len());
        lemma_nw_is_edit_distance(old_r, new_r, old_r.len(), new_r.len());
        lemma_hirschberg_size(old_l, new_l, t);
        lemma_hirschberg_size(old_r, new_r, hirschberg_trace(scorer, old_l, new_l, t));
    }
}

/// The script that the Hirschberg algorithm gives for two ASCII strings
/// under the classical scores inserts and deletes, in all, as many bytes as
/// the edit distance between the strings.  By `lemma_path_score_bound` no
/// path of single steps from the one string to the other does with less.
pub proof fn lemma_find_diff_is_shortest(old: Seq<char>, new: Seq<char>)
    requires
        is_ascii_chars(old),
        is_ascii_chars(new),
    ensures
        script_size(diff_of(&EditDistance, old, new)) == edit_distance(
            old,
            new,
            old.len(),
            new.len(),
        ),
{
    lemma_hirschberg_size(old, new, Trace::start());
}

} // verus!
