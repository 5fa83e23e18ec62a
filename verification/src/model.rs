//! The mathematical model of a decoration tree.
//!
//! A tree is a face and an ordered sequence of runs. A run is either a plain
//! span, which lies under the face of the tree that holds it, or a nested
//! tree, whose own face overrides the enclosing one. No offsets are stored:
//! the position of a run is the sum of the lengths of the runs before it.
//!
//! Two readings of a tree are defined here. `flatten` lists its runs in order
//! as pairs of a face and a length. `faces` gives, for every offset of the
//! buffer, the face that applies there. The operations `append` and `set` are
//! defined on the tree itself, since they are sensitive to its structure.

use vstd::prelude::*;
use vstd::std_specs::cmp::PartialEqSpec;

verus! {

/// One run of a tree.
pub enum Run<F> {
    /// A span of the given length under the face of the tree that holds it.
    Plain(nat),
    /// A sub-tree whose own face overrides the enclosing face.
    Nested(Tree<F>),
}

/// A decoration tree: an ambient face and the runs that lie under it, from
/// left to right.
pub struct Tree<F> {
    pub face: F,
    pub runs: Seq<Run<F>>,
}

/// The sequence that holds `value` exactly `n` times.
pub open spec fn repeat<F>(value: F, n: nat) -> Seq<F> {
    Seq::new(n, |i: int| value)
}

/// The sum of the lengths in a list of faces and lengths.
pub open spec fn total<F>(list: Seq<(F, nat)>) -> nat
    decreases list.len(),
{
    if list.len() == 0 {
        0
    } else {
        total(list.drop_last()) + list.last().1
    }
}

/// A list of faces and lengths, written out unit by unit.
pub open spec fn expand<F>(list: Seq<(F, nat)>) -> Seq<F>
    decreases list.len(),
{
    if list.len() == 0 {
        Seq::empty()
    } else {
        expand(list.drop_last()) + repeat(list.last().0, list.last().1)
    }
}

/// The offset at which entry `k` of `list` starts; for `k` the length of
/// the list, the offset at which the list ends.
pub open spec fn cut<F>(list: Seq<(F, nat)>, k: int) -> nat {
    total(list.take(k))
}

/// `holds` is true of every offset at which an entry of `list` starts or
/// ends, where the list starts at offset `base`.
pub open spec fn cuts_satisfy<F>(
    list: Seq<(F, nat)>,
    base: nat,
    holds: spec_fn(nat) -> bool,
) -> bool {
    forall|k: int| 0 <= k <= list.len() ==> holds(base + #[trigger] cut(list, k))
}

/// `out` holds the lengths of `list`, each with a clone of its face.
pub open spec fn copies<F: Clone>(list: Seq<(F, nat)>, out: Seq<(F, usize)>) -> bool {
    &&& out.len() == list.len()
    &&& forall|i: int|
        0 <= i < list.len() ==> cloned(list[i].0, (#[trigger] out[i]).0) && out[i].1 == list[i].1
}

/// Zero or one run, as a sequence.
pub open spec fn optional_run<F>(run: Option<Run<F>>) -> Seq<Run<F>> {
    match run {
        Some(r) => seq![r],
        None => Seq::empty(),
    }
}

impl<F> Run<F> {
    /// The number of buffer units that the run covers.
    pub open spec fn len(self) -> nat
        decreases self,
    {
        match self {
            Run::Plain(n) => n,
            Run::Nested(t) => t.len(),
        }
    }

    /// The face at each unit of the run, where `ambient` is the face of the
    /// tree that holds it.
    pub open spec fn faces(self, ambient: F) -> Seq<F>
        decreases self,
    {
        match self {
            Run::Plain(n) => repeat(ambient, n),
            Run::Nested(t) => t.faces(),
        }
    }

    /// The run as a list of faces and lengths, where `ambient` is the face
    /// of the tree that holds it.
    pub open spec fn flatten(self, ambient: F) -> Seq<(F, nat)>
        decreases self,
    {
        match self {
            Run::Plain(n) => seq![(ambient, n)],
            Run::Nested(t) => t.flatten(),
        }
    }

    /// The new override run: `len` units under `face`.
    pub open spec fn overriding(face: F, len: nat) -> Run<F> {
        Run::Nested(Tree::with_len(face, len))
    }

    /// The part of the run that lies before `offset`, or nothing where
    /// `offset` is zero. A plain run is shortened to `offset`. In a nested
    /// tree the runs behind the one that holds `offset` are dropped and that
    /// one is trimmed in the same way; a nested tree that keeps no run at all
    /// yields nothing.
    pub open spec fn keep_start(self, offset: nat) -> Option<Run<F>>
        decreases self,
    {
        if offset == 0 {
            None
        } else {
            match self {
                Run::Plain(_) => Some(Run::Plain(offset)),
                Run::Nested(t) => {
                    let idx = t.index_of(offset);
                    if !(0 <= idx < t.runs.len()) {
                        None
                    } else {
                        let rest = t.runs[idx].keep_start((offset - t.offset_of(idx)) as nat);
                        let kept = t.runs.take(idx) + optional_run(rest);
                        if kept.len() == 0 {
                            None
                        } else {
                            Some(Run::Nested(Tree { face: t.face, runs: kept }))
                        }
                    }
                },
            }
        }
    }

    /// The part of the run that starts at `offset`, or nothing where `offset`
    /// reaches the end of the run. A plain run is shortened by `offset`. In a
    /// nested tree the runs before the one that holds `offset` are dropped
    /// and that one is trimmed in the same way; a nested tree that keeps no
    /// run at all yields nothing.
    pub open spec fn keep_end(self, offset: nat) -> Option<Run<F>>
        decreases self,
    {
        if self.len() <= offset {
            None
        } else {
            match self {
                Run::Plain(n) => Some(Run::Plain((n - offset) as nat)),
                Run::Nested(t) => {
                    let idx = t.index_of(offset);
                    if !(0 <= idx < t.runs.len()) {
                        None
                    } else {
                        let rest = t.runs[idx].keep_end((offset - t.offset_of(idx)) as nat);
                        let kept = optional_run(rest) + t.runs.skip(idx + 1);
                        if kept.len() == 0 {
                            None
                        } else {
                            Some(Run::Nested(Tree { face: t.face, runs: kept }))
                        }
                    }
                },
            }
        }
    }
}

impl<F> Tree<F> {
    /// The tree without runs.
    pub open spec fn empty(face: F) -> Tree<F> {
        Tree { face, runs: Seq::empty() }
    }

    /// The tree of one plain run.
    pub open spec fn with_len(face: F, len: nat) -> Tree<F> {
        Tree { face, runs: seq![Run::Plain(len)] }
    }

    /// The sum of the lengths of `runs`.
    pub open spec fn runs_len(runs: Seq<Run<F>>) -> nat
        decreases runs,
    {
        if runs.len() == 0 {
            0
        } else {
            Self::runs_len(runs.drop_last()) + runs.last().len()
        }
    }

    /// The number of buffer units that the tree covers.
    pub open spec fn len(self) -> nat
        decreases self,
    {
        Self::runs_len(self.runs)
    }

    /// `offset`, or the length of the tree where `offset` lies behind it.
    pub open spec fn clamp(self, offset: nat) -> nat {
        if offset <= self.len() {
            offset
        } else {
            self.len()
        }
    }

    /// The offset at which run `i` starts: the sum of the lengths before it.
    pub open spec fn offset_of(self, i: int) -> nat {
        Self::runs_len(self.runs.take(i))
    }

    /// The offset at which run `i` ends.
    pub open spec fn end_of(self, i: int) -> nat {
        self.offset_of(i + 1)
    }

    /// The scan behind `index_of`, taken up at run `i`.
    pub open spec fn scan(self, offset: nat, i: int) -> int
        decreases self.runs.len() - i,
    {
        if 0 <= i < self.runs.len() && self.end_of(i) < offset {
            self.scan(offset, i + 1)
        } else {
            i
        }
    }

    /// The index of the run that `offset` resolves to: the first run whose
    /// end reaches `offset`. An offset on the boundary of two runs resolves
    /// to the earlier one. Where no run reaches `offset`, the result is the
    /// number of runs.
    pub open spec fn index_of(self, offset: nat) -> int {
        self.scan(offset, 0)
    }

    /// The faces of `runs` under the ambient face `ambient`, unit by unit.
    pub open spec fn runs_faces(ambient: F, runs: Seq<Run<F>>) -> Seq<F>
        decreases runs,
    {
        if runs.len() == 0 {
            Seq::empty()
        } else {
            Self::runs_faces(ambient, runs.drop_last()) + runs.last().faces(ambient)
        }
    }

    /// The face that applies at each offset of the buffer.
    pub open spec fn faces(self) -> Seq<F>
        decreases self,
    {
        Self::runs_faces(self.face, self.runs)
    }

    /// `runs` as a list of faces and lengths under the ambient face `ambient`.
    pub open spec fn runs_flatten(ambient: F, runs: Seq<Run<F>>) -> Seq<(F, nat)>
        decreases runs,
    {
        if runs.len() == 0 {
            Seq::empty()
        } else {
            Self::runs_flatten(ambient, runs.drop_last()) + runs.last().flatten(ambient)
        }
    }

    /// The tree read in order: a plain run gives the tree's face and the
    /// run's length, a nested tree gives its own list.
    pub open spec fn flatten(self) -> Seq<(F, nat)>
        decreases self,
    {
        Self::runs_flatten(self.face, self.runs)
    }

    /// The tree after `[start, end)` was given to `face`.
    ///
    /// An empty range changes nothing. Where both ends resolve to one run
    /// and that run is a nested tree, the override is made inside it, at the
    /// offsets taken from its start. Otherwise the runs from the one that
    /// holds `start` to the one that holds `end` give way to what is kept of
    /// the first before `start`, the override run, and what is kept of the
    /// last from `end` on. Neighbours of equal face are not merged.
    pub open spec fn set(self, face: F, start: nat, end: nat) -> Tree<F>
        decreases self,
    {
        let i = self.index_of(start);
        let j = self.index_of(end);
        if start >= end || !(0 <= i <= j < self.runs.len()) {
            self
        } else if i == j && self.runs[i] is Nested {
            let base = self.offset_of(i);
            let inner = self.runs[i]->Nested_0.set(
                face,
                (start - base) as nat,
                (end - base) as nat,
            );
            Tree { face: self.face, runs: self.runs.update(i, Run::Nested(inner)) }
        } else {
            let head = self.runs[i].keep_start((start - self.offset_of(i)) as nat);
            let tail = self.runs[j].keep_end((end - self.offset_of(j)) as nat);
            Tree {
                face: self.face,
                runs: self.runs.take(i) + optional_run(head) + seq![
                    Run::overriding(face, (end - start) as nat),
                ] + optional_run(tail) + self.runs.skip(j + 1),
            }
        }
    }

    /// `after` is this tree with `len` units added at its end in one of the
    /// ways in which an append adds them, whatever the comparison of faces
    /// said: as a new plain run, as a new nested tree under `face`, joined
    /// to a plain last run, or added in one of these ways to a nested tree
    /// that is the last run.
    pub open spec fn grown_by(self, after: Tree<F>, face: F, len: nat) -> bool
        decreases self,
    {
        &&& after.face == self.face
        &&& {
            ||| after.runs == self.runs.push(Run::Plain(len))
            ||| after.runs == self.runs.push(Run::overriding(face, len))
            ||| {
                &&& self.runs.len() > 0
                &&& self.runs.last() is Plain
                &&& after.runs == self.runs.drop_last().push(
                    Run::Plain(self.runs.last()->Plain_0 + len),
                )
            }
            ||| {
                &&& self.runs.len() > 0
                &&& self.runs.last() is Nested
                &&& after.runs.len() == self.runs.len()
                &&& after.runs.drop_last() == self.runs.drop_last()
                &&& after.runs.last() is Nested
                &&& self.runs.last()->Nested_0.grown_by(after.runs.last()->Nested_0, face, len)
            }
        }
    }
}

/// One step in the making of a tree.
pub enum Step<F> {
    /// So many units are appended under a face.
    Append(F, nat),
    /// A face is given to a range, which is cut down to the tree first.
    Override(F, nat, nat),
}

/// The sum of the lengths that the appends among `steps` add.
pub open spec fn appended<F>(steps: Seq<Step<F>>) -> nat
    decreases steps.len(),
{
    if steps.len() == 0 {
        0
    } else {
        appended(steps.drop_last()) + match steps.last() {
            Step::Append(_, len) => len,
            Step::Override(_, _, _) => 0,
        }
    }
}

impl<F: PartialEq> Tree<F> {
    /// The tree after `len` units under `face` were added at its end.
    ///
    /// Under the tree's own face the units join a plain last run, or become
    /// a new plain run. Under another face they go into a last run that is a
    /// nested tree of that face, or become a new nested tree. Faces are
    /// compared as the face type's `==` compares them.
    pub open spec fn append(self, face: F, len: nat) -> Tree<F>
        decreases self,
    {
        if self.face.eq_spec(&face) {
            if self.runs.len() > 0 && self.runs.last() is Plain {
                Tree {
                    face: self.face,
                    runs: self.runs.drop_last().push(Run::Plain(self.runs.last()->Plain_0 + len)),
                }
            } else {
                Tree { face: self.face, runs: self.runs.push(Run::Plain(len)) }
            }
        } else {
            if self.runs.len() > 0 && self.runs.last() is Nested
                && self.runs.last()->Nested_0.face.eq_spec(&face) {
                Tree {
                    face: self.face,
                    runs: self.runs.drop_last().push(
                        Run::Nested(self.runs.last()->Nested_0.append(face, len)),
                    ),
                }
            } else {
                Tree { face: self.face, runs: self.runs.push(Run::overriding(face, len)) }
            }
        }
    }

    /// The tree after one step.
    pub open spec fn apply(self, step: Step<F>) -> Tree<F> {
        match step {
            Step::Append(face, len) => self.append(face, len),
            Step::Override(face, start, end) => self.set(face, self.clamp(start), self.clamp(end)),
        }
    }

    /// The tree after `steps`, taken in order.
    pub open spec fn apply_all(self, steps: Seq<Step<F>>) -> Tree<F>
        decreases steps.len(),
    {
        if steps.len() == 0 {
            self
        } else {
            self.apply_all(steps.drop_last()).apply(steps.last())
        }
    }
}

} // verus!
