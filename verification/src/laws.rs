//! What holds of every decoration tree, stated over the model and proved.

use crate::lemmas::{
    lemma_cut_bounds, lemma_cuts_add, lemma_cuts_small, lemma_faces_split, lemma_flatten_split,
    lemma_index_of, lemma_index_of_monotone, lemma_index_of_unique, lemma_keep_end_cuts,
    lemma_keep_end_faces, lemma_keep_end_len, lemma_keep_start_again, lemma_keep_start_cuts,
    lemma_keep_start_faces, lemma_keep_start_len, lemma_offset_bounds, lemma_offset_step,
    lemma_prefix_offsets, lemma_run_flatten_complete, lemma_runs_drop_last,
    lemma_runs_faces_add, lemma_runs_faces_len, lemma_runs_faces_optional,
    lemma_runs_flatten_add, lemma_runs_flatten_complete, lemma_runs_flatten_optional,
    lemma_runs_len_add, lemma_runs_len_one, lemma_runs_len_optional, lemma_set_len,
    lemma_total_add, lemma_total_one, lemma_update_offsets,
};
use crate::model::{
    appended, copies, cut, cuts_satisfy, expand, optional_run, repeat, total, Run, Step, Tree,
};
use vstd::prelude::*;
use vstd::std_specs::cmp::PartialEqSpec;

verus! {

/// The face type's `==` holds of equal faces only.
pub open spec fn eq_is_exact<F: PartialEq>() -> bool {
    forall|a: F, b: F| a.eq_spec(&b) ==> a == b
}

/// The face type's `clone` returns an equal face.
pub open spec fn clone_is_exact<F: Clone>() -> bool {
    forall|a: F, b: F| cloned(a, b) ==> a == b
}

/// Where clones are equal to what they were cloned from, a copy of a list
/// holds the faces of the list themselves.
pub proof fn law_copies_exact<F: Clone>(list: Seq<(F, nat)>, out: Seq<(F, usize)>)
    requires
        clone_is_exact::<F>(),
        copies(list, out),
    ensures
        out.map_values(|entry: (F, usize)| (entry.0, entry.1 as nat)) == list,
{
    let plain = out.map_values(|entry: (F, usize)| (entry.0, entry.1 as nat));
    assert forall|i: int| 0 <= i < list.len() implies plain[i] == list[i] by {
        assert(cloned(list[i].0, out[i].0));
    }
    assert(plain =~= list);
}

/// Flattening is complete: the lengths in the list of a tree add up to the
/// length of the tree, the list written out unit by unit is the face of
/// every offset, and there is one face for each unit.
pub proof fn law_flatten_complete<F>(t: Tree<F>)
    ensures
        total(t.flatten()) == t.len(),
        expand(t.flatten()) == t.faces(),
        t.faces().len() == t.len(),
{
    lemma_runs_flatten_complete(t.face, t.runs);
    lemma_runs_faces_len(t.face, t.runs);
}

/// Appending adds to the length exactly what was appended, and keeps the
/// tree's own face.
pub proof fn law_append_len<F: PartialEq>(t: Tree<F>, face: F, len: nat)
    ensures
        t.append(face, len).len() == t.len() + len,
        t.append(face, len).face == t.face,
    decreases t,
{
    lemma_runs_drop_last(t.runs);
    lemma_runs_drop_last(t.runs.drop_last());
    lemma_runs_len_one(Run::<F>::Plain(len));
    if !t.face.eq_spec(&face) && t.runs.len() > 0 && t.runs.last() is Nested {
        law_append_len(t.runs.last()->Nested_0, face, len);
    }
}

/// Appending leaves every face that was there and puts `face` on each new
/// unit, where the face type's `==` holds of equal faces only.
pub proof fn law_append_faces<F: PartialEq>(t: Tree<F>, face: F, len: nat)
    requires
        eq_is_exact::<F>(),
    ensures
        t.append(face, len).faces() == t.faces() + repeat(face, len),
    decreases t,
{
    let after = t.append(face, len);
    let before = t.runs.drop_last();
    if t.runs.len() > 0 {
        lemma_runs_faces_add(t.face, before, seq![t.runs.last()]);
        assert(before + seq![t.runs.last()] =~= t.runs);
        lemma_runs_faces_add(t.face, before, seq![after.runs.last()]);
        assert(before.push(after.runs.last()) =~= before + seq![after.runs.last()]);
        lemma_runs_faces_optional(t.face, Some(t.runs.last()));
    }
    lemma_runs_faces_optional(t.face, Some(after.runs.last()));
    lemma_runs_faces_add(t.face, t.runs, seq![after.runs.last()]);
    assert(t.runs.push(after.runs.last()) =~= t.runs + seq![after.runs.last()]);
    if t.face.eq_spec(&face) {
        if t.runs.len() > 0 && t.runs.last() is Plain {
            let n = t.runs.last()->Plain_0;
            assert(repeat(face, n + len) =~= repeat(face, n) + repeat(face, len));
            assert(after.faces() =~= t.faces() + repeat(face, len));
        }
    } else {
        if t.runs.len() > 0 && t.runs.last() is Nested && t.runs.last()->Nested_0.face.eq_spec(
            &face,
        ) {
            law_append_faces(t.runs.last()->Nested_0, face, len);
            assert(after.faces() =~= t.faces() + repeat(face, len));
        } else {
            lemma_runs_faces_optional(face, Some(Run::<F>::Plain(len)));
        }
    }
}

/// Appending under one face twice in a row gives the tree that one append
/// of both lengths gives, for a face that is equal to itself.
pub proof fn law_append_merge<F: PartialEq>(t: Tree<F>, face: F, a: nat, b: nat)
    requires
        face.eq_spec(&face),
    ensures
        t.append(face, a).append(face, b) == t.append(face, a + b),
    decreases t,
{
    let once = t.append(face, a);
    let twice = once.append(face, b);
    let both = t.append(face, a + b);
    if t.face.eq_spec(&face) {
        assert(twice.runs =~= both.runs);
    } else {
        if t.runs.len() > 0 && t.runs.last() is Nested && t.runs.last()->Nested_0.face.eq_spec(
            &face,
        ) {
            let inner = t.runs.last()->Nested_0;
            law_append_merge(inner, face, a, b);
            law_append_len(inner, face, a);
            assert(once.runs.drop_last() =~= t.runs.drop_last());
            assert(twice.runs =~= both.runs);
        } else {
            let fresh = Tree::with_len(face, a);
            assert(once.runs.drop_last() =~= t.runs);
            assert(fresh.runs.drop_last().push(Run::Plain(a + b)) =~= seq![Run::Plain(a + b)]);
            assert(fresh.append(face, b) == Tree::with_len(face, a + b));
            assert(twice.runs =~= both.runs);
        }
    }
}

/// An override of an empty range changes nothing.
pub proof fn law_set_empty_range<F>(t: Tree<F>, face: F, start: nat, end: nat)
    requires
        start >= end,
    ensures
        t.set(face, start, end) == t,
{
}

/// An override leaves the length of the tree as it was.
pub proof fn law_set_len<F>(t: Tree<F>, face: F, start: nat, end: nat)
    requires
        start <= end <= t.len(),
    ensures
        t.set(face, start, end).len() == t.len(),
{
    lemma_set_len(t, face, start, end);
}

/// An override gives `face` to every offset of `[start, end)` and leaves
/// the face of every other offset as it was.
pub proof fn law_set_faces<F>(t: Tree<F>, face: F, start: nat, end: nat)
    requires
        start <= end <= t.len(),
    ensures
        t.set(face, start, end).faces() == t.faces().take(start as int) + repeat(
            face,
            (end - start) as nat,
        ) + t.faces().skip(end as int),
    decreases t,
{
    let after = t.set(face, start, end);
    let i = t.index_of(start);
    let j = t.index_of(end);
    lemma_runs_faces_len(t.face, t.runs);
    if start == end {
        assert(t.faces() =~= t.faces().take(start as int) + repeat(face, 0) + t.faces().skip(
            end as int,
        ));
    } else {
        if t.runs.len() == 0 {
            assert(t.len() == 0);
        }
        lemma_index_of(t, start);
        lemma_index_of(t, end);
        lemma_index_of_monotone(t, start, end);
        lemma_offset_step(t, i);
        lemma_offset_step(t, j);
        lemma_faces_split(t, i);
        lemma_faces_split(t, j);
        if i == j && t.runs[i] is Nested {
            let base = t.offset_of(i);
            let inner = t.runs[i]->Nested_0;
            law_set_faces(inner, face, (start - base) as nat, (end - base) as nat);
            lemma_faces_split(after, i);
            assert(after.runs.take(i) =~= t.runs.take(i));
            assert(after.runs.skip(i + 1) =~= t.runs.skip(i + 1));
            assert(after.faces() =~= t.faces().take(start as int) + repeat(
                face,
                (end - start) as nat,
            ) + t.faces().skip(end as int));
        } else {
            let head = t.runs[i].keep_start((start - t.offset_of(i)) as nat);
            let tail = t.runs[j].keep_end((end - t.offset_of(j)) as nat);
            let mid = Run::overriding(face, (end - start) as nat);
            lemma_keep_start_faces(t.runs[i], t.face, (start - t.offset_of(i)) as nat);
            lemma_keep_end_faces(t.runs[j], t.face, (end - t.offset_of(j)) as nat);
            lemma_runs_faces_optional(t.face, Some(mid));
            lemma_runs_faces_optional(face, Some(Run::<F>::Plain((end - start) as nat)));
            let a = t.runs.take(i);
            let z = t.runs.skip(j + 1);
            lemma_runs_faces_add(t.face, a, optional_run(head));
            lemma_runs_faces_add(t.face, a + optional_run(head), seq![mid]);
            lemma_runs_faces_add(t.face, a + optional_run(head) + seq![mid], optional_run(tail));
            lemma_runs_faces_add(
                t.face,
                a + optional_run(head) + seq![mid] + optional_run(tail),
                z,
            );
            assert(after.faces() =~= t.faces().take(start as int) + repeat(
                face,
                (end - start) as nat,
            ) + t.faces().skip(end as int));
        }
    }
}

/// Entry `k` of `list` is `len` units under `face` and starts at offset
/// `start`.
pub open spec fn is_run_at<F>(list: Seq<(F, nat)>, k: int, face: F, start: nat, len: nat) -> bool {
    &&& 0 <= k < list.len()
    &&& list[k] == (face, len)
    &&& total(list.take(k)) == start
}

/// An override is complete: the list of the tree then holds one entry that
/// starts at `start`, has the length of the range and carries `face`.
pub proof fn law_set_overrides_fully<F>(t: Tree<F>, face: F, start: nat, end: nat)
    requires
        start < end <= t.len(),
    ensures
        exists|k: int| #[trigger]
            is_run_at(t.set(face, start, end).flatten(), k, face, start, (end - start) as nat),
        t.set(face, start, end).faces().subrange(start as int, end as int) == repeat(
            face,
            (end - start) as nat,
        ),
    decreases t,
{
    let after = t.set(face, start, end);
    let list = after.flatten();
    let len = (end - start) as nat;
    let i = t.index_of(start);
    let j = t.index_of(end);
    if t.runs.len() == 0 {
        assert(t.len() == 0);
    }
    lemma_index_of(t, start);
    lemma_index_of(t, end);
    lemma_index_of_monotone(t, start, end);
    lemma_offset_step(t, i);
    lemma_offset_step(t, j);
    if i == j && t.runs[i] is Nested {
        let base = t.offset_of(i);
        let inner = t.runs[i]->Nested_0;
        let changed = inner.set(face, (start - base) as nat, (end - base) as nat);
        law_set_overrides_fully(inner, face, (start - base) as nat, (end - base) as nat);
        let inner_k = choose|k: int| #[trigger]
            is_run_at(changed.flatten(), k, face, (start - base) as nat, len);
        let a = after.runs.take(i);
        let z = after.runs.skip(i + 1);
        assert(a =~= t.runs.take(i));
        assert(after.runs =~= a + seq![Run::Nested(changed)] + z);
        lemma_runs_flatten_add(t.face, a + seq![Run::Nested(changed)], z);
        lemma_runs_flatten_add(t.face, a, seq![Run::Nested(changed)]);
        lemma_runs_flatten_optional(t.face, Some(Run::Nested(changed)));
        lemma_runs_flatten_complete(t.face, a);
        let before = Tree::runs_flatten(t.face, a);
        let k = before.len() + inner_k;
        assert(list.take(k) =~= before + changed.flatten().take(inner_k));
        lemma_total_add(before, changed.flatten().take(inner_k));
        assert(is_run_at(list, k, face, start, len));
    } else {
        let head = t.runs[i].keep_start((start - t.offset_of(i)) as nat);
        let tail = t.runs[j].keep_end((end - t.offset_of(j)) as nat);
        let mid = Run::overriding(face, len);
        lemma_keep_start_len(t.runs[i], (start - t.offset_of(i)) as nat);
        lemma_runs_len_optional(head);
        let a = t.runs.take(i) + optional_run(head);
        let z = optional_run(tail) + t.runs.skip(j + 1);
        assert(after.runs =~= a + seq![mid] + z);
        lemma_runs_len_add(t.runs.take(i), optional_run(head));
        lemma_runs_flatten_add(t.face, a + seq![mid], z);
        lemma_runs_flatten_add(t.face, a, seq![mid]);
        lemma_runs_flatten_optional(t.face, Some(mid));
        lemma_runs_flatten_optional(face, Some(Run::<F>::Plain(len)));
        lemma_runs_flatten_complete(t.face, a);
        let before = Tree::runs_flatten(t.face, a);
        let k = before.len() as int;
        assert(list.take(k) =~= before);
        assert(is_run_at(list, k, face, start, len));
    }
    law_set_faces(t, face, start, end);
    law_flatten_complete(t);
    assert(after.faces().subrange(start as int, end as int) =~= repeat(face, len));
}

/// An override makes no new cuts but at its two ends: what holds of both
/// ends of the range and of every offset at which an entry of the list
/// started or ended, holds of every such offset afterwards.
pub proof fn law_set_cuts<F>(
    t: Tree<F>,
    face: F,
    start: nat,
    end: nat,
    base: nat,
    holds: spec_fn(nat) -> bool,
)
    requires
        start <= end <= t.len(),
        cuts_satisfy(t.flatten(), base, holds),
        holds(base + start),
        holds(base + end),
    ensures
        cuts_satisfy(t.set(face, start, end).flatten(), base, holds),
    decreases t,
{
    let after = t.set(face, start, end);
    let i = t.index_of(start);
    let j = t.index_of(end);
    if start < end {
        if t.runs.len() == 0 {
            assert(t.len() == 0);
        }
        lemma_index_of(t, start);
        lemma_index_of(t, end);
        lemma_index_of_monotone(t, start, end);
        lemma_offset_step(t, i);
        lemma_offset_step(t, j);
        lemma_flatten_split(t, i);
        lemma_flatten_split(t, j);
        let before_i = Tree::runs_flatten(t.face, t.runs.take(i));
        let at_i = t.runs[i].flatten(t.face);
        let behind_i = Tree::runs_flatten(t.face, t.runs.skip(i + 1));
        let before_j = Tree::runs_flatten(t.face, t.runs.take(j));
        let at_j = t.runs[j].flatten(t.face);
        let behind_j = Tree::runs_flatten(t.face, t.runs.skip(j + 1));
        lemma_runs_flatten_complete(t.face, t.runs.take(i));
        lemma_runs_flatten_complete(t.face, t.runs.take(j));
        lemma_run_flatten_complete(t.runs[i], t.face);
        lemma_run_flatten_complete(t.runs[j], t.face);
        lemma_cuts_add(before_i + at_i, behind_i, base, holds);
        lemma_cuts_add(before_i, at_i, base, holds);
        lemma_total_add(before_i, at_i);
        lemma_cuts_add(before_j + at_j, behind_j, base, holds);
        lemma_cuts_add(before_j, at_j, base, holds);
        lemma_total_add(before_j, at_j);
        if i == j && t.runs[i] is Nested {
            let at = t.offset_of(i);
            let inner = t.runs[i]->Nested_0;
            let changed = inner.set(face, (start - at) as nat, (end - at) as nat);
            law_set_cuts(inner, face, (start - at) as nat, (end - at) as nat, base + at, holds);
            lemma_set_len(inner, face, (start - at) as nat, (end - at) as nat);
            lemma_flatten_split(after, i);
            assert(after.runs.take(i) =~= t.runs.take(i));
            assert(after.runs.skip(i + 1) =~= t.runs.skip(i + 1));
            lemma_run_flatten_complete(Run::Nested(changed), t.face);
            lemma_cuts_add(before_i + changed.flatten(), behind_i, base, holds);
            lemma_cuts_add(before_i, changed.flatten(), base, holds);
            lemma_total_add(before_i, changed.flatten());
        } else {
            let head = t.runs[i].keep_start((start - t.offset_of(i)) as nat);
            let tail = t.runs[j].keep_end((end - t.offset_of(j)) as nat);
            let len = (end - start) as nat;
            let mid = Run::overriding(face, len);
            lemma_keep_start_cuts(
                t.runs[i],
                t.face,
                (start - t.offset_of(i)) as nat,
                base + t.offset_of(i),
                holds,
            );
            lemma_keep_end_cuts(
                t.runs[j],
                t.face,
                (end - t.offset_of(j)) as nat,
                base + t.offset_of(j),
                holds,
            );
            lemma_keep_start_len(t.runs[i], (start - t.offset_of(i)) as nat);
            lemma_keep_end_len(t.runs[j], (end - t.offset_of(j)) as nat);
            let a = t.runs.take(i);
            let z = t.runs.skip(j + 1);
            let list_head = Tree::runs_flatten(t.face, optional_run(head));
            let list_mid = seq![(face, len)];
            let list_tail = Tree::runs_flatten(t.face, optional_run(tail));
            lemma_runs_flatten_add(t.face, a, optional_run(head));
            lemma_runs_flatten_add(t.face, a + optional_run(head), seq![mid]);
            lemma_runs_flatten_add(t.face, a + optional_run(head) + seq![mid], optional_run(tail));
            lemma_runs_flatten_add(
                t.face,
                a + optional_run(head) + seq![mid] + optional_run(tail),
                z,
            );
            lemma_runs_flatten_optional(t.face, Some(mid));
            lemma_runs_flatten_optional(face, Some(Run::<F>::Plain(len)));
            lemma_runs_flatten_complete(t.face, optional_run(head));
            lemma_runs_flatten_complete(t.face, optional_run(tail));
            lemma_runs_len_optional(head);
            lemma_runs_len_optional(tail);
            lemma_total_one((face, len));
            lemma_cuts_small((face, len), base + start, holds);
            assert(after.flatten() == before_i + list_head + list_mid + list_tail + behind_j);
            lemma_cuts_add(before_i, list_head, base, holds);
            lemma_total_add(before_i, list_head);
            lemma_cuts_add(before_i + list_head, list_mid, base, holds);
            lemma_total_add(before_i + list_head, list_mid);
            lemma_cuts_add(before_i + list_head + list_mid, list_tail, base, holds);
            lemma_total_add(before_i + list_head + list_mid, list_tail);
            lemma_cuts_add(before_i + list_head + list_mid + list_tail, behind_j, base, holds);
        }
    }
}

/// However the faces compare, an append grows the tree in one of the ways
/// that `grown_by` lists.
pub proof fn law_append_grows<F: PartialEq>(t: Tree<F>, face: F, len: nat)
    ensures
        t.grown_by(t.append(face, len), face, len),
    decreases t,
{
    let after = t.append(face, len);
    if !t.face.eq_spec(&face) && t.runs.len() > 0 && t.runs.last() is Nested
        && t.runs.last()->Nested_0.face.eq_spec(&face) {
        law_append_grows(t.runs.last()->Nested_0, face, len);
        assert(after.runs.drop_last() =~= t.runs.drop_last());
    }
}

/// A tree that has grown is longer by what was added.
pub proof fn law_grown_len<F>(t: Tree<F>, after: Tree<F>, face: F, len: nat)
    requires
        t.grown_by(after, face, len),
    ensures
        after.len() == t.len() + len,
    decreases t,
{
    lemma_runs_drop_last(t.runs);
    lemma_runs_drop_last(t.runs.drop_last());
    lemma_runs_drop_last(after.runs);
    lemma_runs_len_one(Run::<F>::Plain(len));
    if t.runs.len() > 0 && t.runs.last() is Nested && after.runs.len() == t.runs.len()
        && after.runs.last() is Nested && t.runs.last()->Nested_0.grown_by(
        after.runs.last()->Nested_0,
        face,
        len,
    ) {
        law_grown_len(t.runs.last()->Nested_0, after.runs.last()->Nested_0, face, len);
    }
}

/// Growing makes no new cut but at the new end: what holds of the new end
/// and of every offset at which an entry of the list started or ended,
/// holds of every such offset afterwards.
pub proof fn law_grown_cuts<F>(
    t: Tree<F>,
    after: Tree<F>,
    face: F,
    len: nat,
    base: nat,
    holds: spec_fn(nat) -> bool,
)
    requires
        t.grown_by(after, face, len),
        cuts_satisfy(t.flatten(), base, holds),
        holds(base + t.len() + len),
    ensures
        cuts_satisfy(after.flatten(), base, holds),
    decreases t,
{
    let kept = t.runs.drop_last();
    let list_kept = Tree::runs_flatten(t.face, kept);
    lemma_runs_flatten_complete(t.face, kept);
    lemma_runs_flatten_complete(t.face, t.runs);
    lemma_runs_drop_last(t.runs);
    lemma_runs_flatten_optional(t.face, Some(after.runs.last()));
    lemma_runs_flatten_optional(face, Some(Run::<F>::Plain(len)));
    if t.runs.len() > 0 {
        lemma_cuts_add(list_kept, t.runs.last().flatten(t.face), base, holds);
    }
    if after.runs == t.runs.push(Run::Plain(len)) || after.runs == t.runs.push(
        Run::overriding(face, len),
    ) {
        assert(after.runs =~= t.runs + seq![after.runs.last()]);
        lemma_runs_flatten_add(t.face, t.runs, seq![after.runs.last()]);
        lemma_cuts_add(t.flatten(), after.runs.last().flatten(t.face), base, holds);
        lemma_cut_bounds(t.flatten(), t.flatten().len() as int);
        assert(holds(base + cut(t.flatten(), t.flatten().len() as int)));
        lemma_cuts_small((t.face, len), base + t.len(), holds);
        lemma_cuts_small((face, len), base + t.len(), holds);
    } else {
        assert(after.runs =~= kept + seq![after.runs.last()]);
        lemma_runs_flatten_add(t.face, kept, seq![after.runs.last()]);
        lemma_cuts_add(list_kept, after.runs.last().flatten(t.face), base, holds);
        match t.runs.last() {
            Run::Plain(n) => {
                lemma_cuts_small((t.face, n), base + total(list_kept), holds);
                lemma_cuts_small((t.face, n + len), base + total(list_kept), holds);
            },
            Run::Nested(inner) => {
                law_grown_cuts(
                    inner,
                    after.runs.last()->Nested_0,
                    face,
                    len,
                    base + total(list_kept),
                    holds,
                );
            },
        }
    }
}

/// An override made twice reads as the override made once: the list of
/// the tree is the same after the second as after the first.
pub proof fn law_set_idempotent<F>(t: Tree<F>, face: F, start: nat, end: nat)
    requires
        start <= end <= t.len(),
    ensures
        t.set(face, start, end).set(face, start, end).flatten() == t.set(
            face,
            start,
            end,
        ).flatten(),
    decreases t,
{
    if start < end {
        if t.runs.len() == 0 {
            assert(t.len() == 0);
        }
        lemma_index_of(t, start);
        lemma_index_of(t, end);
        lemma_index_of_monotone(t, start, end);
        let i = t.index_of(start);
        let j = t.index_of(end);
        if i == j && t.runs[i] is Nested {
            let base = t.offset_of(i);
            lemma_offset_step(t, i);
            law_set_idempotent(
                t.runs[i]->Nested_0,
                face,
                (start - base) as nat,
                (end - base) as nat,
            );
            lemma_set_again_inside(t, face, start, end);
        } else if t.runs[i].keep_start((start - t.offset_of(i)) as nat) is Some {
            lemma_set_again_behind(t, face, start, end);
        } else {
            lemma_set_again_in_front(t, face, start, end);
        }
    }
}

/// The override made once more where the first was made inside a nested
/// tree, given that it reads the same inside that tree.
proof fn lemma_set_again_inside<F>(t: Tree<F>, face: F, start: nat, end: nat)
    requires
        start < end <= t.len(),
        0 <= t.index_of(start) < t.runs.len(),
        t.index_of(start) == t.index_of(end),
        t.runs[t.index_of(start)] is Nested,
        t.offset_of(t.index_of(start)) <= start,
        end <= t.end_of(t.index_of(start)),
        ({
            let i = t.index_of(start);
            let base = t.offset_of(i);
            let changed = t.runs[i]->Nested_0.set(
                face,
                (start - base) as nat,
                (end - base) as nat,
            );
            changed.set(face, (start - base) as nat, (end - base) as nat).flatten()
                == changed.flatten()
        }),
    ensures
        t.set(face, start, end).set(face, start, end).flatten() == t.set(
            face,
            start,
            end,
        ).flatten(),
{
    let once = t.set(face, start, end);
    let twice = once.set(face, start, end);
    let i = t.index_of(start);
    let base = t.offset_of(i);
    let inner = t.runs[i]->Nested_0;
    let s = (start - base) as nat;
    let e = (end - base) as nat;
    let changed = inner.set(face, s, e);
    lemma_offset_step(t, i);
    lemma_set_len(inner, face, s, e);
    lemma_update_offsets(t, i, Run::Nested(changed));
    assert(once == Tree { face: t.face, runs: t.runs.update(i, Run::Nested(changed)) });
    assert(once.index_of(start) == i);
    assert(once.index_of(end) == i);
    assert(once.offset_of(i) == base);
    assert(twice.runs == once.runs.update(i, Run::Nested(changed.set(face, s, e))));
    lemma_flatten_split(once, i);
    lemma_flatten_split(twice, i);
    assert(twice.runs.take(i) =~= once.runs.take(i));
    assert(twice.runs.skip(i + 1) =~= once.runs.skip(i + 1));
}

/// The override made once more where the first left a run in front of the
/// range: the tree stays as it is.
proof fn lemma_set_again_behind<F>(t: Tree<F>, face: F, start: nat, end: nat)
    requires
        start < end <= t.len(),
        t.runs.len() > 0,
        !(t.index_of(start) == t.index_of(end) && t.runs[t.index_of(start)] is Nested),
        t.runs[t.index_of(start)].keep_start((start - t.offset_of(t.index_of(start))) as nat)
            is Some,
    ensures
        t.set(face, start, end).set(face, start, end) == t.set(face, start, end),
{
    let once = t.set(face, start, end);
    let twice = once.set(face, start, end);
    lemma_index_of(t, start);
    lemma_index_of(t, end);
    lemma_index_of_monotone(t, start, end);
    let i = t.index_of(start);
    let j = t.index_of(end);
    let at = (start - t.offset_of(i)) as nat;
    let head = t.runs[i].keep_start(at);
    let tail = t.runs[j].keep_end((end - t.offset_of(j)) as nat);
    let len = (end - start) as nat;
    let mid = Run::overriding(face, len);
    lemma_offset_step(t, i);
    lemma_keep_start_len(t.runs[i], at);
    lemma_keep_start_again(t.runs[i], at);
    lemma_runs_len_one(Run::<F>::Plain(len));
    assert(mid.len() == len);
    assert(once.runs =~= t.runs.take(i) + seq![head->Some_0] + seq![mid] + optional_run(tail)
        + t.runs.skip(j + 1));
    assert(once.runs[i] == head->Some_0);
    assert(once.runs[i + 1] == mid);
    assert(once.runs.take(i) =~= t.runs.take(i));
    lemma_prefix_offsets(once, t, i);
    lemma_offset_step(once, i);
    lemma_offset_step(once, i + 1);
    assert(once.end_of(i) == start);
    assert(once.end_of(i + 1) == end);
    assert forall|m: int| 0 <= m < i implies #[trigger] once.end_of(m) < start by {
        assert(t.end_of(m) < start);
    }
    lemma_index_of_unique(once, start, i);
    assert forall|m: int| 0 <= m < i + 1 implies #[trigger] once.end_of(m) < end by {
        if m < i {
            assert(t.end_of(m) < start);
        }
    }
    lemma_index_of_unique(once, end, i + 1);
    assert(once.runs[i].keep_start((start - once.offset_of(i)) as nat) == head);
    assert(once.runs[i + 1].keep_end((end - once.offset_of(i + 1)) as nat) is None);
    assert(once.runs.skip(i + 2) =~= optional_run(tail) + t.runs.skip(j + 1));
    assert(twice.runs =~= once.runs);
}

/// The override made once more where the first left nothing in front of
/// the range: the second is made inside the run that the first put there.
proof fn lemma_set_again_in_front<F>(t: Tree<F>, face: F, start: nat, end: nat)
    requires
        start < end <= t.len(),
        t.runs.len() > 0,
        !(t.index_of(start) == t.index_of(end) && t.runs[t.index_of(start)] is Nested),
        t.runs[t.index_of(start)].keep_start((start - t.offset_of(t.index_of(start))) as nat)
            is None,
    ensures
        t.set(face, start, end).set(face, start, end).flatten() == t.set(
            face,
            start,
            end,
        ).flatten(),
{
    let once = t.set(face, start, end);
    let twice = once.set(face, start, end);
    lemma_index_of(t, start);
    lemma_index_of(t, end);
    lemma_index_of_monotone(t, start, end);
    let i = t.index_of(start);
    let j = t.index_of(end);
    let at = (start - t.offset_of(i)) as nat;
    let tail = t.runs[j].keep_end((end - t.offset_of(j)) as nat);
    let len = (end - start) as nat;
    let mid = Run::overriding(face, len);
    let fresh = Tree::with_len(face, len);
    lemma_offset_step(t, i);
    lemma_keep_start_len(t.runs[i], at);
    assert(i == 0 && start == 0);
    lemma_runs_len_one(Run::<F>::Plain(len));
    assert(once.runs =~= seq![mid] + optional_run(tail) + t.runs.skip(j + 1));
    assert(once.runs[0] == mid);
    lemma_offset_bounds(once, 0, 0);
    lemma_offset_step(once, 0);
    lemma_index_of_unique(once, start, 0);
    lemma_index_of_unique(once, end, 0);
    lemma_offset_bounds(fresh, 0, 0);
    lemma_offset_step(fresh, 0);
    lemma_index_of_unique(fresh, 0, 0);
    lemma_index_of_unique(fresh, len, 0);
    let again = fresh.set(face, 0, len);
    assert(again.runs =~= seq![mid]);
    lemma_runs_flatten_optional(face, Some(mid));
    assert(again.flatten() == fresh.flatten());
    assert(twice.runs == once.runs.update(0, Run::Nested(again)));
    lemma_flatten_split(once, 0);
    lemma_flatten_split(twice, 0);
    assert(twice.runs.take(0) =~= once.runs.take(0));
    assert(twice.runs.skip(1) =~= once.runs.skip(1));
}

/// An override whose range is cut down to the tree changes nothing where
/// nothing is left of the range, and else gives `face` to exactly what is
/// left of it.
pub proof fn law_override_cut_down<F: PartialEq>(t: Tree<F>, face: F, start: nat, end: nat)
    ensures
        t.clamp(start) >= t.clamp(end) ==> t.apply(Step::Override(face, start, end)) == t,
        t.clamp(start) < t.clamp(end) ==> t.apply(Step::Override(face, start, end)).faces()
            == t.faces().take(t.clamp(start) as int) + repeat(
            face,
            (t.clamp(end) - t.clamp(start)) as nat,
        ) + t.faces().skip(t.clamp(end) as int),
{
    if t.clamp(start) < t.clamp(end) {
        law_set_faces(t, face, t.clamp(start), t.clamp(end));
    }
}

/// Length is conserved: after any appends and overrides, in any order, the
/// tree is as long as it was and as the appends made it longer. An override
/// never changes the length.
pub proof fn law_length_conservation<F: PartialEq>(t: Tree<F>, steps: Seq<Step<F>>)
    ensures
        t.apply_all(steps).len() == t.len() + appended(steps),
    decreases steps.len(),
{
    if steps.len() > 0 {
        law_length_conservation(t, steps.drop_last());
        let before = t.apply_all(steps.drop_last());
        match steps.last() {
            Step::Append(face, len) => law_append_len(before, face, len),
            Step::Override(face, start, end) => {
                if before.clamp(start) <= before.clamp(end) {
                    lemma_set_len(before, face, before.clamp(start), before.clamp(end));
                }
            },
        }
    }
}

} // verus!
