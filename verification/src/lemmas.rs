//! Facts about the model that the verified code and the laws rest on.

use crate::model::{cut, cuts_satisfy, expand, optional_run, repeat, total, Run, Tree};
use vstd::prelude::*;

verus! {

/// The length of a concatenation of runs is the sum of the lengths.
pub proof fn lemma_runs_len_add<F>(a: Seq<Run<F>>, b: Seq<Run<F>>)
    ensures
        Tree::runs_len(a + b) == Tree::runs_len(a) + Tree::runs_len(b),
    decreases b.len(),
{
    if b.len() == 0 {
        assert(a + b =~= a);
    } else {
        lemma_runs_len_add(a, b.drop_last());
        assert((a + b).drop_last() =~= a + b.drop_last());
        assert((a + b).last() == b.last());
    }
}

/// The length of a single run, as a sequence of runs.
pub proof fn lemma_runs_len_one<F>(r: Run<F>)
    ensures
        Tree::runs_len(seq![r]) == r.len(),
{
    let s = seq![r];
    assert(s.drop_last() =~= Seq::<Run<F>>::empty());
    assert(s.last() == r);
    assert(Tree::runs_len(s.drop_last()) == 0);
}

/// The length of zero or one run.
pub proof fn lemma_runs_len_optional<F>(r: Option<Run<F>>)
    ensures
        Tree::runs_len(optional_run(r)) == match r {
            Some(x) => x.len(),
            None => 0,
        },
{
    match r {
        Some(x) => lemma_runs_len_one(x),
        None => {},
    }
}

/// The next run starts where the run before it ends.
pub proof fn lemma_offset_step<F>(t: Tree<F>, i: int)
    requires
        0 <= i < t.runs.len(),
    ensures
        t.offset_of(i + 1) == t.offset_of(i) + t.runs[i].len(),
{
    let s = t.runs.take(i + 1);
    assert(s.drop_last() =~= t.runs.take(i));
    assert(s.last() == t.runs[i]);
}

/// The offsets of the runs go from zero to the length of the tree, and
/// never go down.
pub proof fn lemma_offset_bounds<F>(t: Tree<F>, i: int, j: int)
    requires
        0 <= i <= j <= t.runs.len(),
    ensures
        t.offset_of(0) == 0,
        t.offset_of(t.runs.len() as int) == t.len(),
        t.offset_of(i) <= t.offset_of(j) <= t.len(),
    decreases t.runs.len() - i,
{
    assert(t.runs.take(0) =~= Seq::<Run<F>>::empty());
    assert(t.runs.take(t.runs.len() as int) =~= t.runs);
    lemma_runs_len_add(t.runs.take(i), t.runs.subrange(i, j));
    assert(t.runs.take(i) + t.runs.subrange(i, j) =~= t.runs.take(j));
    lemma_runs_len_add(t.runs.take(j), t.runs.skip(j));
    assert(t.runs.take(j) + t.runs.skip(j) =~= t.runs);
}

/// A run is no longer than the tree that holds it.
pub proof fn lemma_run_len_bound<F>(t: Tree<F>, i: int)
    requires
        0 <= i < t.runs.len(),
    ensures
        t.runs[i].len() <= t.len(),
        t.offset_of(i) + t.runs[i].len() <= t.len(),
{
    lemma_offset_step(t, i);
    lemma_offset_bounds(t, i, i + 1);
}

/// The length of a sequence of runs, split at its last run.
pub proof fn lemma_runs_drop_last<F>(runs: Seq<Run<F>>)
    ensures
        runs.len() > 0 ==> Tree::runs_len(runs) == Tree::runs_len(runs.drop_last())
            + runs.last().len(),
        forall|r: Run<F>| Tree::runs_len(#[trigger] runs.push(r)) == Tree::runs_len(runs) + r.len(),
{
    assert forall|r: Run<F>| Tree::runs_len(#[trigger] runs.push(r)) == Tree::runs_len(runs)
        + r.len() by {
        assert(runs.push(r).drop_last() =~= runs);
        assert(runs.push(r).last() == r);
    }
}

/// Where the scan from run `i` stops: every run that it passes ends before
/// `offset`, and the run at which it stops, if there is one, reaches it.
pub proof fn lemma_scan<F>(t: Tree<F>, offset: nat, i: int)
    requires
        0 <= i <= t.runs.len(),
    ensures
        i <= t.scan(offset, i) <= t.runs.len(),
        forall|m: int| i <= m < t.scan(offset, i) ==> #[trigger] t.end_of(m) < offset,
        t.scan(offset, i) < t.runs.len() ==> t.end_of(t.scan(offset, i)) >= offset,
    decreases t.runs.len() - i,
{
    if i < t.runs.len() && t.end_of(i) < offset {
        lemma_scan(t, offset, i + 1);
    }
}

/// An offset within a tree that has runs resolves to a run that holds it.
pub proof fn lemma_index_of<F>(t: Tree<F>, offset: nat)
    requires
        t.runs.len() > 0,
        offset <= t.len(),
    ensures
        0 <= t.index_of(offset) < t.runs.len(),
        t.offset_of(t.index_of(offset)) <= offset <= t.end_of(t.index_of(offset)),
        t.index_of(offset) > 0 ==> t.offset_of(t.index_of(offset)) < offset,
        forall|m: int| 0 <= m < t.index_of(offset) ==> #[trigger] t.end_of(m) < offset,
        offset - t.offset_of(t.index_of(offset)) <= t.runs[t.index_of(offset)].len(),
{
    lemma_scan(t, offset, 0);
    let k = t.index_of(offset);
    let n = t.runs.len() as int;
    lemma_offset_bounds(t, 0, n);
    if k == n {
        assert(t.end_of(n - 1) < offset);
    }
    if k > 0 {
        assert(t.end_of(k - 1) < offset);
    } else {
        lemma_offset_bounds(t, 0, 0);
    }
    lemma_offset_step(t, k);
}

/// An offset beyond the tree, or any offset in a tree without runs,
/// resolves to no run.
pub proof fn lemma_index_of_none<F>(t: Tree<F>, offset: nat)
    requires
        t.runs.len() == 0 || offset > t.len(),
    ensures
        t.index_of(offset) == t.runs.len(),
{
    lemma_scan(t, offset, 0);
    let k = t.index_of(offset);
    let n = t.runs.len() as int;
    if k < n {
        lemma_offset_bounds(t, k + 1, n);
    }
}

/// A later offset resolves to the same run or to a later one.
pub proof fn lemma_index_of_monotone<F>(t: Tree<F>, a: nat, b: nat)
    requires
        a <= b,
    ensures
        t.index_of(a) <= t.index_of(b),
{
    lemma_scan(t, a, 0);
    lemma_scan(t, b, 0);
    let i = t.index_of(a);
    let j = t.index_of(b);
    if j < i {
        assert(t.end_of(j) < a);
    }
}

/// What is kept of a run before `offset` is no longer than `offset`, and is
/// exactly that long where `offset` lies within the run.
pub proof fn lemma_keep_start_len<F>(r: Run<F>, offset: nat)
    ensures
        r.keep_start(offset) matches Some(x) ==> x.len() <= offset,
        0 < offset <= r.len() ==> r.keep_start(offset) is Some && r.keep_start(offset)->Some_0.len()
            == offset,
    decreases r,
{
    if offset > 0 {
        match r {
            Run::Plain(_) => {},
            Run::Nested(t) => {
                let idx = t.index_of(offset);
                if 0 <= idx < t.runs.len() {
                    let rel = (offset - t.offset_of(idx)) as nat;
                    lemma_scan(t, offset, 0);
                    lemma_offset_step(t, idx);
                    if idx > 0 {
                        assert(t.end_of(idx - 1) < offset);
                    } else {
                        lemma_offset_bounds(t, 0, 0);
                    }
                    lemma_keep_start_len(t.runs[idx], rel);
                    let rest = t.runs[idx].keep_start(rel);
                    lemma_runs_len_add(t.runs.take(idx), optional_run(rest));
                    lemma_runs_len_optional(rest);
                }
                if offset <= r.len() {
                    if t.runs.len() == 0 {
                        assert(t.len() == 0);
                    }
                    lemma_index_of(t, offset);
                }
            },
        }
    }
}

/// What is kept of a run from `offset` on is as long as what lies behind
/// `offset`.
pub proof fn lemma_keep_end_len<F>(r: Run<F>, offset: nat)
    ensures
        r.keep_end(offset) is Some <==> offset < r.len(),
        r.keep_end(offset) matches Some(x) ==> x.len() == r.len() - offset,
    decreases r,
{
    if offset < r.len() {
        match r {
            Run::Plain(_) => {},
            Run::Nested(t) => {
                if t.runs.len() == 0 {
                    assert(t.len() == 0);
                }
                lemma_index_of(t, offset);
                let idx = t.index_of(offset);
                let rel = (offset - t.offset_of(idx)) as nat;
                lemma_offset_step(t, idx);
                lemma_keep_end_len(t.runs[idx], rel);
                let rest = t.runs[idx].keep_end(rel);
                lemma_runs_len_add(optional_run(rest), t.runs.skip(idx + 1));
                lemma_runs_len_optional(rest);
                lemma_runs_len_add(t.runs.take(idx + 1), t.runs.skip(idx + 1));
                assert(t.runs.take(idx + 1) + t.runs.skip(idx + 1) =~= t.runs);
            },
        }
    }
}

/// A tree splits at run `i` into the runs before it, the run, and the rest.
pub proof fn lemma_split_at<F>(t: Tree<F>, i: int)
    requires
        0 <= i < t.runs.len(),
    ensures
        t.runs == t.runs.take(i) + seq![t.runs[i]] + t.runs.skip(i + 1),
        t.len() == t.offset_of(i) + t.runs[i].len() + Tree::runs_len(t.runs.skip(i + 1)),
        t.len() == t.end_of(i) + Tree::runs_len(t.runs.skip(i + 1)),
{
    assert(t.runs =~= t.runs.take(i) + seq![t.runs[i]] + t.runs.skip(i + 1));
    lemma_runs_len_add(t.runs.take(i) + seq![t.runs[i]], t.runs.skip(i + 1));
    lemma_runs_len_add(t.runs.take(i), seq![t.runs[i]]);
    lemma_runs_len_one(t.runs[i]);
    lemma_offset_step(t, i);
}

/// An override within the tree leaves its length as it was.
pub proof fn lemma_set_len<F>(t: Tree<F>, face: F, start: nat, end: nat)
    requires
        start <= end <= t.len(),
    ensures
        t.set(face, start, end).len() == t.len(),
    decreases t,
{
    let i = t.index_of(start);
    let j = t.index_of(end);
    if start < end && 0 <= i <= j < t.runs.len() {
        lemma_index_of(t, start);
        lemma_index_of(t, end);
        if i == j && t.runs[i] is Nested {
            let base = t.offset_of(i);
            let inner = t.runs[i]->Nested_0;
            lemma_offset_step(t, i);
            lemma_set_len(inner, face, (start - base) as nat, (end - base) as nat);
            let changed = Run::Nested(
                inner.set(face, (start - base) as nat, (end - base) as nat),
            );
            let after = Tree { face: t.face, runs: t.runs.update(i, changed) };
            lemma_split_at(t, i);
            lemma_split_at(after, i);
            assert(after.runs.take(i) =~= t.runs.take(i));
            assert(after.runs.skip(i + 1) =~= t.runs.skip(i + 1));
        } else {
            let head = t.runs[i].keep_start((start - t.offset_of(i)) as nat);
            let tail = t.runs[j].keep_end((end - t.offset_of(j)) as nat);
            let mid = Run::overriding(face, (end - start) as nat);
            lemma_keep_start_len(t.runs[i], (start - t.offset_of(i)) as nat);
            lemma_keep_end_len(t.runs[j], (end - t.offset_of(j)) as nat);
            lemma_runs_len_optional(head);
            lemma_runs_len_optional(tail);
            lemma_runs_len_one(mid);
            lemma_runs_len_one(Run::<F>::Plain((end - start) as nat));
            let a = t.runs.take(i);
            let z = t.runs.skip(j + 1);
            lemma_runs_len_add(a, optional_run(head));
            lemma_runs_len_add(a + optional_run(head), seq![mid]);
            lemma_runs_len_add(a + optional_run(head) + seq![mid], optional_run(tail));
            lemma_runs_len_add(a + optional_run(head) + seq![mid] + optional_run(tail), z);
            lemma_split_at(t, j);
        }
    }
}

/// The sum of the lengths of two lists, one behind the other.
pub proof fn lemma_total_add<F>(a: Seq<(F, nat)>, b: Seq<(F, nat)>)
    ensures
        total(a + b) == total(a) + total(b),
    decreases b.len(),
{
    if b.len() == 0 {
        assert(a + b =~= a);
    } else {
        lemma_total_add(a, b.drop_last());
        assert((a + b).drop_last() =~= a + b.drop_last());
        assert((a + b).last() == b.last());
    }
}

/// The sum of the lengths of a list of one entry.
pub proof fn lemma_total_one<F>(entry: (F, nat))
    ensures
        total(seq![entry]) == entry.1,
{
    let s = seq![entry];
    assert(s.drop_last() =~= Seq::<(F, nat)>::empty());
    assert(s.last() == entry);
    assert(total(s.drop_last()) == 0);
}

/// Two lists written out, one behind the other.
pub proof fn lemma_expand_add<F>(a: Seq<(F, nat)>, b: Seq<(F, nat)>)
    ensures
        expand(a + b) == expand(a) + expand(b),
    decreases b.len(),
{
    if b.len() == 0 {
        assert(a + b =~= a);
        assert(expand(a) + expand(b) =~= expand(a));
    } else {
        lemma_expand_add(a, b.drop_last());
        assert((a + b).drop_last() =~= a + b.drop_last());
        assert((a + b).last() == b.last());
        assert(expand(a + b) =~= expand(a) + expand(b));
    }
}

/// A list of one entry, written out.
pub proof fn lemma_expand_one<F>(entry: (F, nat))
    ensures
        expand(seq![entry]) == repeat(entry.0, entry.1),
{
    let s = seq![entry];
    assert(s.drop_last() =~= Seq::<(F, nat)>::empty());
    assert(s.last() == entry);
    assert(expand(s.drop_last()) =~= Seq::<F>::empty());
    assert(expand(s) =~= repeat(entry.0, entry.1));
}

/// The faces of two sequences of runs, one behind the other.
pub proof fn lemma_runs_faces_add<F>(ambient: F, a: Seq<Run<F>>, b: Seq<Run<F>>)
    ensures
        Tree::runs_faces(ambient, a + b) == Tree::runs_faces(ambient, a) + Tree::runs_faces(
            ambient,
            b,
        ),
    decreases b.len(),
{
    if b.len() == 0 {
        assert(a + b =~= a);
        assert(Tree::runs_faces(ambient, a) + Tree::runs_faces(ambient, b) =~= Tree::runs_faces(
            ambient,
            a,
        ));
    } else {
        lemma_runs_faces_add(ambient, a, b.drop_last());
        assert((a + b).drop_last() =~= a + b.drop_last());
        assert((a + b).last() == b.last());
        assert(Tree::runs_faces(ambient, a + b) =~= Tree::runs_faces(ambient, a)
            + Tree::runs_faces(ambient, b));
    }
}

/// The faces of zero or one run.
pub proof fn lemma_runs_faces_optional<F>(ambient: F, r: Option<Run<F>>)
    ensures
        Tree::runs_faces(ambient, optional_run(r)) == match r {
            Some(x) => x.faces(ambient),
            None => Seq::empty(),
        },
{
    match r {
        Some(x) => {
            let s = seq![x];
            assert(s.drop_last() =~= Seq::<Run<F>>::empty());
            assert(s.last() == x);
            assert(Tree::runs_faces(ambient, s.drop_last()) =~= Seq::<F>::empty());
            assert(Tree::runs_faces(ambient, s) =~= x.faces(ambient));
        },
        None => {},
    }
}

/// Two sequences of runs as lists, one behind the other.
pub proof fn lemma_runs_flatten_add<F>(ambient: F, a: Seq<Run<F>>, b: Seq<Run<F>>)
    ensures
        Tree::runs_flatten(ambient, a + b) == Tree::runs_flatten(ambient, a) + Tree::runs_flatten(
            ambient,
            b,
        ),
    decreases b.len(),
{
    if b.len() == 0 {
        assert(a + b =~= a);
        assert(Tree::runs_flatten(ambient, a) + Tree::runs_flatten(ambient, b)
            =~= Tree::runs_flatten(ambient, a));
    } else {
        lemma_runs_flatten_add(ambient, a, b.drop_last());
        assert((a + b).drop_last() =~= a + b.drop_last());
        assert((a + b).last() == b.last());
        assert(Tree::runs_flatten(ambient, a + b) =~= Tree::runs_flatten(ambient, a)
            + Tree::runs_flatten(ambient, b));
    }
}

/// Zero or one run as a list.
pub proof fn lemma_runs_flatten_optional<F>(ambient: F, r: Option<Run<F>>)
    ensures
        Tree::runs_flatten(ambient, optional_run(r)) == match r {
            Some(x) => x.flatten(ambient),
            None => Seq::empty(),
        },
{
    match r {
        Some(x) => {
            let s = seq![x];
            assert(s.drop_last() =~= Seq::<Run<F>>::empty());
            assert(s.last() == x);
            assert(Tree::runs_flatten(ambient, s.drop_last()) =~= Seq::<(F, nat)>::empty());
            assert(Tree::runs_flatten(ambient, s) =~= x.flatten(ambient));
        },
        None => {},
    }
}

/// The list of the runs up to and with run `i` is the list of the runs
/// before it and the list of that run.
pub proof fn lemma_runs_flatten_step<F>(t: Tree<F>, i: int)
    ensures
        0 <= i < t.runs.len() ==> Tree::runs_flatten(t.face, t.runs.take(i + 1))
            == Tree::runs_flatten(t.face, t.runs.take(i)) + t.runs[i].flatten(t.face),
        Tree::runs_flatten(t.face, t.runs.take(0)) == Seq::<(F, nat)>::empty(),
        Tree::runs_flatten(t.face, t.runs.take(t.runs.len() as int)) == t.flatten(),
{
    if 0 <= i < t.runs.len() {
        let s = t.runs.take(i + 1);
        assert(s.drop_last() =~= t.runs.take(i));
        assert(s.last() == t.runs[i]);
    }
    assert(t.runs.take(0) =~= Seq::<Run<F>>::empty());
    assert(t.runs.take(t.runs.len() as int) =~= t.runs);
}

/// A run has one face for each of its units.
pub proof fn lemma_run_faces_len<F>(r: Run<F>, ambient: F)
    ensures
        r.faces(ambient).len() == r.len(),
    decreases r,
{
    match r {
        Run::Plain(_) => {},
        Run::Nested(t) => lemma_runs_faces_len(t.face, t.runs),
    }
}

/// A sequence of runs has one face for each of its units.
pub proof fn lemma_runs_faces_len<F>(ambient: F, runs: Seq<Run<F>>)
    ensures
        Tree::runs_faces(ambient, runs).len() == Tree::runs_len(runs),
    decreases runs,
{
    if runs.len() > 0 {
        lemma_runs_faces_len(ambient, runs.drop_last());
        lemma_run_faces_len(runs.last(), ambient);
    }
}

/// The faces of a tree, split at run `i`.
pub proof fn lemma_faces_split<F>(t: Tree<F>, i: int)
    requires
        0 <= i < t.runs.len(),
    ensures
        t.faces() == Tree::runs_faces(t.face, t.runs.take(i)) + t.runs[i].faces(t.face)
            + Tree::runs_faces(t.face, t.runs.skip(i + 1)),
        Tree::runs_faces(t.face, t.runs.take(i)).len() == t.offset_of(i),
        t.runs[i].faces(t.face).len() == t.runs[i].len(),
        t.faces().len() == t.len(),
{
    lemma_split_at(t, i);
    lemma_runs_faces_add(t.face, t.runs.take(i) + seq![t.runs[i]], t.runs.skip(i + 1));
    lemma_runs_faces_add(t.face, t.runs.take(i), seq![t.runs[i]]);
    lemma_runs_faces_optional(t.face, Some(t.runs[i]));
    lemma_runs_faces_len(t.face, t.runs.take(i));
    lemma_runs_faces_len(t.face, t.runs);
    lemma_run_faces_len(t.runs[i], t.face);
}

/// What is kept of a run before `offset` has the faces that the run has
/// before `offset`.
pub proof fn lemma_keep_start_faces<F>(r: Run<F>, ambient: F, offset: nat)
    requires
        offset <= r.len(),
    ensures
        Tree::runs_faces(ambient, optional_run(r.keep_start(offset))) == r.faces(ambient).take(
            offset as int,
        ),
    decreases r,
{
    let kept = r.keep_start(offset);
    lemma_runs_faces_optional(ambient, kept);
    lemma_keep_start_len(r, offset);
    if offset == 0 {
        assert(r.faces(ambient).take(0) =~= Seq::<F>::empty());
    } else {
        match r {
            Run::Plain(n) => {
                assert(repeat(ambient, offset) =~= repeat(ambient, n).take(offset as int));
            },
            Run::Nested(t) => {
                if t.runs.len() == 0 {
                    assert(t.len() == 0);
                }
                lemma_index_of(t, offset);
                let idx = t.index_of(offset);
                let rel = (offset - t.offset_of(idx)) as nat;
                let rest = t.runs[idx].keep_start(rel);
                lemma_keep_start_faces(t.runs[idx], t.face, rel);
                lemma_faces_split(t, idx);
                lemma_runs_faces_add(t.face, t.runs.take(idx), optional_run(rest));
                assert(kept->Some_0.faces(ambient) =~= t.faces().take(offset as int));
            },
        }
    }
}

/// What is kept of a run from `offset` on has the faces that the run has
/// from `offset` on.
pub proof fn lemma_keep_end_faces<F>(r: Run<F>, ambient: F, offset: nat)
    requires
        offset <= r.len(),
    ensures
        Tree::runs_faces(ambient, optional_run(r.keep_end(offset))) == r.faces(ambient).skip(
            offset as int,
        ),
    decreases r,
{
    let kept = r.keep_end(offset);
    lemma_runs_faces_optional(ambient, kept);
    lemma_keep_end_len(r, offset);
    lemma_run_faces_len(r, ambient);
    if offset == r.len() {
        assert(r.faces(ambient).skip(offset as int) =~= Seq::<F>::empty());
    } else {
        match r {
            Run::Plain(n) => {
                assert(repeat(ambient, (n - offset) as nat) =~= repeat(ambient, n).skip(
                    offset as int,
                ));
            },
            Run::Nested(t) => {
                if t.runs.len() == 0 {
                    assert(t.len() == 0);
                }
                lemma_index_of(t, offset);
                let idx = t.index_of(offset);
                let rel = (offset - t.offset_of(idx)) as nat;
                let rest = t.runs[idx].keep_end(rel);
                lemma_keep_end_faces(t.runs[idx], t.face, rel);
                lemma_faces_split(t, idx);
                lemma_runs_faces_add(t.face, optional_run(rest), t.runs.skip(idx + 1));
                assert(kept->Some_0.faces(ambient) =~= t.faces().skip(offset as int));
            },
        }
    }
}

/// A list starts at offset zero and no entry ends behind the list.
pub proof fn lemma_cut_bounds<F>(list: Seq<(F, nat)>, k: int)
    requires
        0 <= k <= list.len(),
    ensures
        cut(list, 0) == 0,
        cut(list, list.len() as int) == total(list),
        cut(list, k) <= total(list),
{
    assert(list.take(0) =~= Seq::<(F, nat)>::empty());
    assert(list.take(list.len() as int) =~= list);
    assert(list.take(k) + list.skip(k) =~= list);
    lemma_total_add(list.take(k), list.skip(k));
}

/// The offsets of two lists, one behind the other: those of the first, and
/// those of the second moved behind the first.
pub proof fn lemma_cuts_add<F>(
    a: Seq<(F, nat)>,
    b: Seq<(F, nat)>,
    base: nat,
    holds: spec_fn(nat) -> bool,
)
    ensures
        cuts_satisfy(a + b, base, holds) <==> cuts_satisfy(a, base, holds) && cuts_satisfy(
            b,
            base + total(a),
            holds,
        ),
{
    let all = a + b;
    if cuts_satisfy(all, base, holds) {
        assert forall|k: int| 0 <= k <= a.len() implies holds(base + #[trigger] cut(a, k)) by {
            assert(all.take(k) =~= a.take(k));
            assert(holds(base + cut(all, k)));
        }
        assert forall|k: int| 0 <= k <= b.len() implies holds(
            base + total(a) + #[trigger] cut(b, k),
        ) by {
            assert(all.take(a.len() + k) =~= a + b.take(k));
            lemma_total_add(a, b.take(k));
            assert(holds(base + cut(all, a.len() + k)));
        }
    }
    if cuts_satisfy(a, base, holds) && cuts_satisfy(b, base + total(a), holds) {
        assert forall|k: int| 0 <= k <= all.len() implies holds(base + #[trigger] cut(all, k)) by {
            if k <= a.len() {
                assert(all.take(k) =~= a.take(k));
                assert(holds(base + cut(a, k)));
            } else {
                assert(all.take(k) =~= a + b.take(k - a.len()));
                lemma_total_add(a, b.take(k - a.len()));
                assert(holds(base + total(a) + cut(b, k - a.len())));
            }
        }
    }
}

/// The offsets of a list without entries, and of a list of one entry.
pub proof fn lemma_cuts_small<F>(entry: (F, nat), base: nat, holds: spec_fn(nat) -> bool)
    ensures
        cuts_satisfy(Seq::<(F, nat)>::empty(), base, holds) <==> holds(base),
        cuts_satisfy(seq![entry], base, holds) <==> holds(base) && holds(base + entry.1),
{
    let none = Seq::<(F, nat)>::empty();
    let one = seq![entry];
    lemma_cut_bounds(none, 0);
    lemma_cut_bounds(one, 0);
    lemma_cut_bounds(one, 1);
    lemma_total_one(entry);
    if cuts_satisfy(none, base, holds) {
        assert(holds(base + cut(none, 0)));
    }
    if cuts_satisfy(one, base, holds) {
        assert(holds(base + cut(one, 0)));
        assert(holds(base + cut(one, 1)));
    }
    if holds(base) && holds(base + entry.1) {
        assert forall|k: int| 0 <= k <= one.len() implies holds(base + #[trigger] cut(one, k)) by {
            if k == 0 {
            } else {
                assert(k == 1);
            }
        }
    }
}

/// The list of a tree, split at run `i`.
pub proof fn lemma_flatten_split<F>(t: Tree<F>, i: int)
    requires
        0 <= i < t.runs.len(),
    ensures
        t.flatten() == Tree::runs_flatten(t.face, t.runs.take(i)) + t.runs[i].flatten(t.face)
            + Tree::runs_flatten(t.face, t.runs.skip(i + 1)),
{
    lemma_split_at(t, i);
    lemma_runs_flatten_add(t.face, t.runs.take(i) + seq![t.runs[i]], t.runs.skip(i + 1));
    lemma_runs_flatten_add(t.face, t.runs.take(i), seq![t.runs[i]]);
    lemma_runs_flatten_optional(t.face, Some(t.runs[i]));
}

/// The list of a run accounts for every unit of the run, and written out
/// it gives the run's faces.
pub proof fn lemma_run_flatten_complete<F>(r: Run<F>, ambient: F)
    ensures
        total(r.flatten(ambient)) == r.len(),
        expand(r.flatten(ambient)) == r.faces(ambient),
    decreases r,
{
    match r {
        Run::Plain(n) => {
            lemma_total_one((ambient, n));
            lemma_expand_one((ambient, n));
        },
        Run::Nested(t) => lemma_runs_flatten_complete(t.face, t.runs),
    }
}

/// The list of a sequence of runs accounts for every unit of the runs, and
/// written out it gives their faces.
pub proof fn lemma_runs_flatten_complete<F>(ambient: F, runs: Seq<Run<F>>)
    ensures
        total(Tree::runs_flatten(ambient, runs)) == Tree::runs_len(runs),
        expand(Tree::runs_flatten(ambient, runs)) == Tree::runs_faces(ambient, runs),
    decreases runs,
{
    if runs.len() > 0 {
        lemma_runs_flatten_complete(ambient, runs.drop_last());
        lemma_run_flatten_complete(runs.last(), ambient);
        lemma_total_add(
            Tree::runs_flatten(ambient, runs.drop_last()),
            runs.last().flatten(ambient),
        );
        lemma_expand_add(
            Tree::runs_flatten(ambient, runs.drop_last()),
            runs.last().flatten(ambient),
        );
    }
}

/// What is kept of a run before `offset` makes no new cut but at `offset`.
pub proof fn lemma_keep_start_cuts<F>(
    r: Run<F>,
    ambient: F,
    offset: nat,
    base: nat,
    holds: spec_fn(nat) -> bool,
)
    requires
        offset <= r.len(),
        cuts_satisfy(r.flatten(ambient), base, holds),
        holds(base + offset),
    ensures
        cuts_satisfy(
            Tree::runs_flatten(ambient, optional_run(r.keep_start(offset))),
            base,
            holds,
        ),
    decreases r,
{
    let kept = r.keep_start(offset);
    lemma_runs_flatten_optional(ambient, kept);
    lemma_keep_start_len(r, offset);
    lemma_cut_bounds(r.flatten(ambient), 0);
    assert(holds(base + cut(r.flatten(ambient), 0)));
    if offset == 0 {
        lemma_cuts_small((ambient, 0), base, holds);
    } else {
        match r {
            Run::Plain(n) => {
                lemma_cuts_small((ambient, offset), base, holds);
            },
            Run::Nested(t) => {
                if t.runs.len() == 0 {
                    assert(t.len() == 0);
                }
                lemma_index_of(t, offset);
                let idx = t.index_of(offset);
                let rel = (offset - t.offset_of(idx)) as nat;
                let rest = t.runs[idx].keep_start(rel);
                let before = Tree::runs_flatten(t.face, t.runs.take(idx));
                let at = t.runs[idx].flatten(t.face);
                let behind = Tree::runs_flatten(t.face, t.runs.skip(idx + 1));
                lemma_flatten_split(t, idx);
                lemma_runs_flatten_complete(t.face, t.runs.take(idx));
                lemma_cuts_add(before + at, behind, base, holds);
                lemma_cuts_add(before, at, base, holds);
                lemma_keep_start_cuts(t.runs[idx], t.face, rel, base + t.offset_of(idx), holds);
                lemma_runs_flatten_add(t.face, t.runs.take(idx), optional_run(rest));
                lemma_cuts_add(
                    before,
                    Tree::runs_flatten(t.face, optional_run(rest)),
                    base,
                    holds,
                );
            },
        }
    }
}

/// What is kept of a run from `offset` on makes no new cut but at `offset`.
pub proof fn lemma_keep_end_cuts<F>(
    r: Run<F>,
    ambient: F,
    offset: nat,
    base: nat,
    holds: spec_fn(nat) -> bool,
)
    requires
        offset <= r.len(),
        cuts_satisfy(r.flatten(ambient), base, holds),
        holds(base + offset),
    ensures
        cuts_satisfy(
            Tree::runs_flatten(ambient, optional_run(r.keep_end(offset))),
            base + offset,
            holds,
        ),
    decreases r,
{
    let kept = r.keep_end(offset);
    lemma_runs_flatten_optional(ambient, kept);
    lemma_keep_end_len(r, offset);
    if offset == r.len() {
        lemma_cuts_small((ambient, 0), base + offset, holds);
    } else {
        match r {
            Run::Plain(n) => {
                lemma_cuts_small((ambient, n), base, holds);
                lemma_cuts_small((ambient, (n - offset) as nat), base + offset, holds);
            },
            Run::Nested(t) => {
                if t.runs.len() == 0 {
                    assert(t.len() == 0);
                }
                lemma_index_of(t, offset);
                let idx = t.index_of(offset);
                let rel = (offset - t.offset_of(idx)) as nat;
                let rest = t.runs[idx].keep_end(rel);
                let before = Tree::runs_flatten(t.face, t.runs.take(idx));
                let at = t.runs[idx].flatten(t.face);
                let behind = Tree::runs_flatten(t.face, t.runs.skip(idx + 1));
                let list_rest = Tree::runs_flatten(t.face, optional_run(rest));
                lemma_flatten_split(t, idx);
                lemma_offset_step(t, idx);
                lemma_runs_flatten_complete(t.face, t.runs.take(idx));
                lemma_run_flatten_complete(t.runs[idx], t.face);
                lemma_runs_flatten_complete(t.face, optional_run(rest));
                lemma_runs_len_optional(rest);
                lemma_keep_end_len(t.runs[idx], rel);
                lemma_cuts_add(before + at, behind, base, holds);
                lemma_cuts_add(before, at, base, holds);
                lemma_total_add(before, at);
                lemma_keep_end_cuts(t.runs[idx], t.face, rel, base + t.offset_of(idx), holds);
                lemma_runs_flatten_add(t.face, optional_run(rest), t.runs.skip(idx + 1));
                lemma_cuts_add(list_rest, behind, base + offset, holds);
            },
        }
    }
}

/// The run to which an offset resolves is the only run that reaches the
/// offset while every run before it ends before the offset.
pub proof fn lemma_index_of_unique<F>(t: Tree<F>, offset: nat, k: int)
    requires
        0 <= k < t.runs.len(),
        forall|m: int| 0 <= m < k ==> #[trigger] t.end_of(m) < offset,
        t.end_of(k) >= offset,
    ensures
        t.index_of(offset) == k,
{
    lemma_scan(t, offset, 0);
    let found = t.index_of(offset);
    if found < k {
        assert(t.end_of(found) < offset);
    }
    if found > k {
        assert(t.end_of(k) < offset);
    }
}

/// Trees that begin with the same `n` runs have the same offsets up to
/// run `n`.
pub proof fn lemma_prefix_offsets<F>(a: Tree<F>, b: Tree<F>, n: int)
    requires
        0 <= n <= a.runs.len(),
        n <= b.runs.len(),
        a.runs.take(n) == b.runs.take(n),
    ensures
        forall|k: int| 0 <= k <= n ==> #[trigger] a.offset_of(k) == b.offset_of(k),
        forall|k: int| 0 <= k < n ==> #[trigger] a.end_of(k) == b.end_of(k),
{
    assert forall|k: int| 0 <= k <= n implies #[trigger] a.offset_of(k) == b.offset_of(k) by {
        assert(a.runs.take(k) =~= a.runs.take(n).take(k));
        assert(b.runs.take(k) =~= b.runs.take(n).take(k));
    }
    assert forall|k: int| 0 <= k < n implies #[trigger] a.end_of(k) == b.end_of(k) by {
        assert(a.offset_of(k + 1) == b.offset_of(k + 1));
    }
}

/// A run that gives way to one of its own length leaves every offset of
/// the tree where it was.
pub proof fn lemma_update_offsets<F>(t: Tree<F>, i: int, r: Run<F>)
    requires
        0 <= i < t.runs.len(),
        r.len() == t.runs[i].len(),
    ensures
        forall|k: int|
            0 <= k <= t.runs.len() ==> #[trigger] (Tree {
                face: t.face,
                runs: t.runs.update(i, r),
            }).offset_of(k) == t.offset_of(k),
        forall|k: int|
            0 <= k < t.runs.len() ==> #[trigger] (Tree {
                face: t.face,
                runs: t.runs.update(i, r),
            }).end_of(k) == t.end_of(k),
        forall|offset: nat|
            #[trigger] (Tree { face: t.face, runs: t.runs.update(i, r) }).index_of(offset)
                == t.index_of(offset),
{
    let after = Tree { face: t.face, runs: t.runs.update(i, r) };
    assert forall|k: int| 0 <= k <= t.runs.len() implies #[trigger] after.offset_of(k)
        == t.offset_of(k) by {
        if k <= i {
            assert(after.runs.take(k) =~= t.runs.take(k));
        } else {
            let middle = t.runs.subrange(i + 1, k);
            assert(after.runs.take(k) =~= t.runs.take(i) + seq![r] + middle);
            assert(t.runs.take(k) =~= t.runs.take(i) + seq![t.runs[i]] + middle);
            lemma_runs_len_add(t.runs.take(i) + seq![r], middle);
            lemma_runs_len_add(t.runs.take(i), seq![r]);
            lemma_runs_len_add(t.runs.take(i) + seq![t.runs[i]], middle);
            lemma_runs_len_add(t.runs.take(i), seq![t.runs[i]]);
            lemma_runs_len_one(r);
            lemma_runs_len_one(t.runs[i]);
        }
    }
    assert forall|k: int| 0 <= k < t.runs.len() implies #[trigger] after.end_of(k) == t.end_of(
        k,
    ) by {
        assert(after.offset_of(k + 1) == t.offset_of(k + 1));
    }
    assert forall|offset: nat| #[trigger] after.index_of(offset) == t.index_of(offset) by {
        lemma_scan(t, offset, 0);
        lemma_scan(after, offset, 0);
        let a = t.index_of(offset);
        let b = after.index_of(offset);
        if a < b {
            assert(after.end_of(a) < offset);
            assert(t.end_of(a) >= offset);
        }
        if b < a {
            assert(t.end_of(b) < offset);
            assert(after.end_of(b) >= offset);
        }
    }
}

/// What is kept of a run before `offset` is kept whole when it is trimmed
/// at `offset` again.
pub proof fn lemma_keep_start_again<F>(r: Run<F>, offset: nat)
    requires
        0 < offset <= r.len(),
    ensures
        r.keep_start(offset) is Some,
        r.keep_start(offset)->Some_0.keep_start(offset) == r.keep_start(offset),
    decreases r,
{
    lemma_keep_start_len(r, offset);
    match r {
        Run::Plain(_) => {},
        Run::Nested(t) => {
            if t.runs.len() == 0 {
                assert(t.len() == 0);
            }
            lemma_index_of(t, offset);
            let idx = t.index_of(offset);
            let rel = (offset - t.offset_of(idx)) as nat;
            if idx == 0 {
                lemma_offset_bounds(t, 0, 0);
            }
            lemma_keep_start_len(t.runs[idx], rel);
            lemma_keep_start_again(t.runs[idx], rel);
            let rest = t.runs[idx].keep_start(rel)->Some_0;
            let kept = Tree { face: t.face, runs: t.runs.take(idx) + seq![rest] };
            assert(r.keep_start(offset) == Some(Run::Nested(kept)));
            assert(kept.runs.take(idx) =~= t.runs.take(idx));
            assert(kept.runs.take(idx) == t.runs.take(idx));
            lemma_prefix_offsets(kept, t, idx);
            lemma_offset_step(kept, idx);
            lemma_index_of_unique(kept, offset, idx);
            assert(kept.runs.take(idx) + seq![rest] =~= kept.runs);
        },
    }
}

} // verus!
