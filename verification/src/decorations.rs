//! The decoration tree: which face applies at every offset of the buffer.

use crate::laws::{
    eq_is_exact, is_run_at, law_append_faces, law_set_faces, law_set_overrides_fully,
};
use crate::lemmas::{
    lemma_index_of, lemma_index_of_monotone, lemma_index_of_none, lemma_keep_end_len,
    lemma_keep_start_len, lemma_offset_bounds, lemma_offset_step, lemma_run_len_bound,
    lemma_runs_drop_last, lemma_runs_flatten_step, lemma_scan, lemma_set_len,
};
use crate::model::{copies, optional_run, repeat, Run, Tree};
use std::ops::Range;
use vstd::prelude::*;
use vstd::std_specs::cmp::PartialEqSpec;

verus! {

/// One run of a decoration tree.
enum TextRange<F> {
    /// A span under the face of the tree that holds it.
    Range(usize),
    /// A sub-tree with a face of its own.
    Decoration(Decorations<F>),
}

/// A decoration tree: an ambient face and its runs from left to right.
pub struct Decorations<F> {
    face: F,
    fragments: Vec<TextRange<F>>,
}

impl<F> View for TextRange<F> {
    type V = Run<F>;

    closed spec fn view(&self) -> Run<F> {
        self.model()
    }
}

impl<F> View for Decorations<F> {
    type V = Tree<F>;

    closed spec fn view(&self) -> Tree<F> {
        self.model()
    }
}

/// The view of a run that may be missing.
spec fn option_view<F>(r: Option<TextRange<F>>) -> Option<Run<F>> {
    match r {
        Some(x) => Some(x@),
        None => None,
    }
}

impl<F> TextRange<F> {
    spec fn model(&self) -> Run<F>
        decreases self,
    {
        match self {
            TextRange::Range(n) => Run::Plain(*n as nat),
            TextRange::Decoration(d) => Run::Nested(d.model()),
        }
    }

    /// The run covers no more than a `usize` can count.
    spec fn wf(&self) -> bool {
        self@.len() <= usize::MAX
    }

    fn is_range(&self) -> (r: bool)
        ensures
            r == (self@ is Plain),
    {
        match self {
            TextRange::Range(_) => true,
            _ => false,
        }
    }

    fn is_decoration_face(&self, face: &F) -> (r: bool) where F: PartialEq
        ensures
            r ==> self@ is Nested,
            F::obeys_eq_spec() ==> r == (self@ is Nested && self@->Nested_0.face.eq_spec(face)),
    {
        match self {
            TextRange::Decoration(d) => d.face == *face,
            _ => false,
        }
    }

    fn len(&self) -> (n: usize)
        requires
            self.wf(),
        ensures
            n == self@.len(),
        decreases self,
    {
        match self {
            TextRange::Range(len) => *len,
            TextRange::Decoration(d) => d.len(),
        }
    }

    /// The part of the run before `offset`, if any is left.
    fn keep_start(self, offset: usize) -> (r: Option<TextRange<F>>)
        requires
            self.wf(),
        ensures
            option_view(r) == self@.keep_start(offset as nat),
            r matches Some(x) ==> x.wf(),
        decreases self,
    {
        proof {
            lemma_keep_start_len(self@, offset as nat);
        }
        if offset == 0 {
            return None;
        }
        match self {
            TextRange::Decoration(d) => {
                proof {
                    d.lemma_view();
                    d.lemma_fragments_wf();
                }
                let (idx, idx_offset) = match d.fragment_index_of(offset) {
                    Some(found) => found,
                    None => { return None; },
                };
                proof {
                    lemma_scan(d@, offset as nat, 0);
                    lemma_offset_bounds(d@, idx as int, idx as int);
                    if idx > 0 {
                        assert(d@.end_of(idx - 1) < offset);
                    }
                }
                let ghost tree = d@;
                let Decorations { face, mut fragments } = d;
                assert(idx < fragments.len());
                fragments.truncate(idx + 1);
                match fragments.pop() {
                    Some(run) => match run.keep_start(offset - idx_offset) {
                        Some(tr) => fragments.push(tr),
                        None => {},
                    },
                    None => {},
                }
                if fragments.len() == 0 {
                    None
                } else {
                    let new = Decorations { face, fragments };
                    proof {
                        new.lemma_view();
                        assert(new@.runs =~= tree.runs.take(idx as int) + optional_run(
                            tree.runs[idx as int].keep_start((offset - idx_offset) as nat),
                        ));
                    }
                    Some(TextRange::Decoration(new))
                }
            },
            TextRange::Range(_) => Some(TextRange::Range(offset)),
        }
    }

    /// The part of the run from `offset` on, if any is left.
    fn keep_end(self, offset: usize) -> (r: Option<TextRange<F>>)
        requires
            self.wf(),
        ensures
            option_view(r) == self@.keep_end(offset as nat),
            r matches Some(x) ==> x.wf(),
        decreases self,
    {
        proof {
            lemma_keep_end_len(self@, offset as nat);
        }
        if self.len() <= offset {
            return None;
        }
        match self {
            TextRange::Decoration(d) => {
                proof {
                    d.lemma_view();
                    d.lemma_fragments_wf();
                }
                let (idx, idx_offset) = match d.fragment_index_of(offset) {
                    Some(found) => found,
                    None => { return None; },
                };
                proof {
                    lemma_scan(d@, offset as nat, 0);
                    lemma_offset_bounds(d@, idx as int, idx as int);
                    if idx > 0 {
                        assert(d@.end_of(idx - 1) < offset);
                    }
                }
                let ghost tree = d@;
                let Decorations { face, mut fragments } = d;
                assert(idx < fragments.len());
                let mut rest = fragments.split_off(idx + 1);
                let mut kept = Vec::new();
                match fragments.pop() {
                    Some(run) => match run.keep_end(offset - idx_offset) {
                        Some(tr) => kept.push(tr),
                        None => {},
                    },
                    None => {},
                }
                kept.append(&mut rest);
                if kept.len() == 0 {
                    None
                } else {
                    let new = Decorations { face, fragments: kept };
                    proof {
                        new.lemma_view();
                        assert(new@.runs =~= optional_run(
                            tree.runs[idx as int].keep_end((offset - idx_offset) as nat),
                        ) + tree.runs.skip(idx + 1));
                    }
                    Some(TextRange::Decoration(new))
                }
            },
            TextRange::Range(len) => Some(TextRange::Range(len - offset)),
        }
    }
}

impl<F> Decorations<F> {
    spec fn model(&self) -> Tree<F>
        decreases self,
    {
        Tree {
            face: self.face,
            runs: Seq::new(
                self.fragments@.len(),
                |i: int|
                    if 0 <= i < self.fragments@.len() {
                        self.fragments@[i].model()
                    } else {
                        Run::Plain(0)
                    },
            ),
        }
    }

    /// The tree covers no more than a `usize` can count.
    pub open spec fn wf(&self) -> bool {
        self@.len() <= usize::MAX
    }

    /// The view holds the face and, run by run, the views of the fragments.
    spec fn mirrors(&self) -> bool {
        &&& self@.face == self.face
        &&& self@.runs.len() == self.fragments@.len()
        &&& forall|i: int|
            0 <= i < self.fragments@.len() ==> self@.runs[i] == (#[trigger] self.fragments@[i])@
    }

    /// Every fragment covers no more than a `usize` can count.
    spec fn fragments_wf(&self) -> bool {
        forall|i: int| 0 <= i < self.fragments@.len() ==> (#[trigger] self.fragments@[i]).wf()
    }

    /// What the view is made of.
    proof fn lemma_view(&self)
        ensures
            self.mirrors(),
    {
    }

    /// Every run of a tree that fits a `usize` fits one too.
    proof fn lemma_fragments_wf(&self)
        requires
            self.wf(),
        ensures
            self.fragments_wf(),
    {
        self.lemma_view();
        assert forall|i: int| 0 <= i < self.fragments@.len() implies (#[trigger] self.fragments@[
            i
        ]).wf() by {
            lemma_run_len_bound(self@, i);
        }
    }

    /// Creates a tree without runs under `face`.
    pub fn new(face: F) -> (ret: Decorations<F>)
        ensures
            ret@ == Tree::empty(face),
            ret.wf(),
    {
        let ret = Decorations { face, fragments: Vec::new() };
        proof {
            ret.lemma_view();
            assert(ret@.runs =~= Seq::<Run<F>>::empty());
        }
        ret
    }

    fn with_len(face: F, len: usize) -> (ret: Decorations<F>)
        ensures
            ret@ == Tree::with_len(face, len as nat),
            ret@.len() == len,
            ret.wf(),
    {
        let mut fragments = Vec::new();
        fragments.push(TextRange::Range(len));
        let ret = Decorations { face, fragments };
        proof {
            ret.lemma_view();
            assert(ret@.runs =~= seq![Run::Plain(len as nat)]);
            crate::lemmas::lemma_runs_len_one(Run::<F>::Plain(len as nat));
        }
        ret
    }

    /// The number of buffer units that the tree covers, summed anew from its
    /// runs.
    pub fn len(&self) -> (n: usize)
        requires
            self.wf(),
        ensures
            n == self@.len(),
        decreases self,
    {
        let mut acc: usize = 0;
        let mut i: usize = 0;
        proof {
            self.lemma_view();
            self.lemma_fragments_wf();
            lemma_offset_bounds(self@, 0, 0);
        }
        while i < self.fragments.len()
            invariant
                i <= self.fragments.len(),
                acc == self@.offset_of(i as int),
                self.wf(),
                self.mirrors(),
                self.fragments_wf(),
            decreases self.fragments.len() - i,
        {
            proof {
                lemma_offset_step(self@, i as int);
                lemma_offset_bounds(self@, i as int + 1, i as int + 1);
            }
            let item = &self.fragments[i];
            acc = acc + item.len();
            i = i + 1;
        }
        proof {
            lemma_offset_bounds(self@, 0, 0);
        }
        acc
    }

    /// Resolves `offset` to a run: its index and the offset at which it
    /// starts. The run is the first whose end reaches `offset`. There is
    /// none where the tree is empty or shorter than `offset`.
    pub fn fragment_index_of(&self, offset: usize) -> (r: Option<(usize, usize)>)
        requires
            self.wf(),
        ensures
            r is Some <==> self@.runs.len() > 0 && offset <= self@.len(),
            r matches Some((idx, start)) ==> idx == self@.index_of(offset as nat) && start
                == self@.offset_of(idx as int),
            r is None ==> self@.index_of(offset as nat) == self@.runs.len(),
    {
        let mut idx: usize = 0;
        let mut idx_offset: usize = 0;
        proof {
            self.lemma_view();
            self.lemma_fragments_wf();
            lemma_offset_bounds(self@, 0, 0);
            if self@.runs.len() > 0 && offset <= self@.len() {
                lemma_index_of(self@, offset as nat);
            } else {
                lemma_index_of_none(self@, offset as nat);
            }
        }
        while idx < self.fragments.len()
            invariant
                idx <= self.fragments.len(),
                idx_offset == self@.offset_of(idx as int),
                self@.index_of(offset as nat) == self@.scan(offset as nat, idx as int),
                self.wf(),
                self.mirrors(),
                self.fragments_wf(),
            decreases self.fragments.len() - idx,
        {
            proof {
                lemma_offset_step(self@, idx as int);
                lemma_offset_bounds(self@, idx as int + 1, idx as int + 1);
            }
            let len = idx_offset + self.fragments[idx].len();
            if len >= offset {
                return Some((idx, idx_offset));
            }
            idx = idx + 1;
            idx_offset = len;
        }
        None
    }

    /// Adds `len` units under `face` at the end of the buffer.
    ///
    /// Units under the tree's own face join a plain last run; units under
    /// another face go into a last run that is a nested tree of that face.
    /// Otherwise a new run is made for them.
    pub fn append(&mut self, face: F, len: usize) where F: PartialEq
        requires
            old(self).wf(),
            old(self)@.len() + len <= usize::MAX,
        ensures
            final(self).wf(),
            final(self)@.len() == old(self)@.len() + len,
            final(self)@.face == old(self)@.face,
            old(self)@.grown_by(final(self)@, face, len as nat),
            F::obeys_eq_spec() ==> final(self)@ == old(self)@.append(face, len as nat),
            F::obeys_eq_spec() && eq_is_exact::<F>() ==> final(self)@.faces() == old(self)@.faces()
                + repeat(face, len as nat),
        decreases *old(self),
    {
        proof {
            if eq_is_exact::<F>() {
                law_append_faces(self@, face, len as nat);
            }
            self.lemma_view();
            self.lemma_fragments_wf();
            lemma_runs_drop_last(self@.runs);
            lemma_runs_drop_last(self@.runs.drop_last());
            if self@.runs.len() > 0 {
                lemma_run_len_bound(self@, self@.runs.len() - 1);
            }
        }
        let count = self.fragments.len();
        if self.face == face {
            let last_is_range = count > 0 && self.fragments[count - 1].is_range();
            if last_is_range {
                let old_len = match self.fragments.pop() {
                    Some(TextRange::Range(n)) => n,
                    _ => 0,
                };
                self.fragments.push(TextRange::Range(old_len + len));
                proof {
                    self.lemma_view();
                    assert(self@.runs =~= old(self)@.runs.drop_last().push(
                        Run::Plain(old(self)@.runs.last()->Plain_0 + len as nat),
                    ));
                }
            } else {
                self.fragments.push(TextRange::Range(len));
                proof {
                    self.lemma_view();
                    assert(self@.runs =~= old(self)@.runs.push(Run::Plain(len as nat)));
                }
            }
        } else {
            let last_is_face = count > 0 && self.fragments[count - 1].is_decoration_face(&face);
            if last_is_face {
                match &mut self.fragments[count - 1] {
                    TextRange::Decoration(d) => d.append(face, len),
                    _ => {},
                }
                proof {
                    self.lemma_view();
                    assert(self@.runs =~= old(self)@.runs.drop_last().push(self@.runs.last()));
                    assert(self@.runs.last() == self.fragments@[count - 1]@);
                    assert(self@.runs.drop_last() =~= old(self)@.runs.drop_last());
                    assert(old(self)@.runs.last() == old(self).fragments@[count - 1]@);
                }
            } else {
                self.fragments.push(TextRange::Decoration(Decorations::with_len(face, len)));
                proof {
                    self.lemma_view();
                    assert(self@.runs =~= old(self)@.runs.push(Run::overriding(face, len as nat)));
                }
            }
        }
    }

    /// Gives `[range.start, range.end)` to `face`, whatever was there. An
    /// empty range changes nothing.
    pub fn set(&mut self, face: F, range: Range<usize>)
        requires
            old(self).wf(),
            range.start <= old(self)@.len(),
            range.end <= old(self)@.len(),
        ensures
            final(self).wf(),
            final(self)@ == old(self)@.set(face, range.start as nat, range.end as nat),
            final(self)@.len() == old(self)@.len(),
            range.start <= range.end ==> final(self)@.faces() == old(self)@.faces().take(
                range.start as int,
            ) + repeat(face, (range.end - range.start) as nat) + old(self)@.faces().skip(
                range.end as int,
            ),
            range.start < range.end ==> exists|k: int| #[trigger]
                is_run_at(
                    final(self)@.flatten(),
                    k,
                    face,
                    range.start as nat,
                    (range.end - range.start) as nat,
                ),
        decreases *old(self),
    {
        proof {
            if range.start <= range.end {
                law_set_faces(self@, face, range.start as nat, range.end as nat);
            }
            if range.start < range.end {
                law_set_overrides_fully(self@, face, range.start as nat, range.end as nat);
            }
        }
        if range.start >= range.end {
            return;
        }
        proof {
            self.lemma_view();
            self.lemma_fragments_wf();
            lemma_set_len(self@, face, range.start as nat, range.end as nat);
            lemma_index_of_monotone(self@, range.start as nat, range.end as nat);
            lemma_index_of(self@, range.start as nat);
            lemma_index_of(self@, range.end as nat);
        }
        let (start, start_offset) = match self.fragment_index_of(range.start) {
            Some(found) => found,
            None => { return; },
        };
        let (end, end_offset) = match self.fragment_index_of(range.end) {
            Some(found) => found,
            None => { return; },
        };
        if start == end && !self.fragments[start].is_range() {
            proof {
                lemma_offset_step(self@, start as int);
            }
            match &mut self.fragments[start] {
                TextRange::Decoration(d) => {
                    d.set(face, (range.start - start_offset)..(range.end - start_offset));
                },
                _ => {},
            }
            proof {
                self.lemma_view();
                assert(self@.runs =~= old(self)@.runs.update(
                    start as int,
                    self@.runs[start as int],
                ));
            }
            return;
        }
        let (start_run, end_run, mut rest) = Self::cut(&mut self.fragments, start, end);
        match start_run.keep_start(range.start - start_offset) {
            Some(tf) => self.fragments.push(tf),
            None => {},
        }
        self.fragments.push(
            TextRange::Decoration(Decorations::with_len(face, range.end - range.start)),
        );
        match end_run.keep_end(range.end - end_offset) {
            Some(tf) => self.fragments.push(tf),
            None => {},
        }
        self.fragments.append(&mut rest);
        proof {
            self.lemma_view();
            let tree = old(self)@;
            let i = start as int;
            let j = end as int;
            let head = tree.runs[i].keep_start((range.start - tree.offset_of(i)) as nat);
            let tail = tree.runs[j].keep_end((range.end - tree.offset_of(j)) as nat);
            let mid = Run::overriding(face, (range.end - range.start) as nat);
            assert(self@.runs =~= tree.runs.take(i) + optional_run(head) + seq![mid] + optional_run(
                tail,
            ) + tree.runs.skip(j + 1));
        }
    }

    /// Takes the runs from `start` to `end` out of `fragments`, which keeps
    /// the runs before them. Hands back the first and the last of them, and
    /// the runs that stood behind.
    fn cut(fragments: &mut Vec<TextRange<F>>, start: usize, end: usize) -> (r: (
        TextRange<F>,
        TextRange<F>,
        Vec<TextRange<F>>,
    ))
        requires
            start <= end < old(fragments).len(),
            start == end ==> old(fragments)[start as int] is Range,
            forall|k: int| 0 <= k < old(fragments).len() ==> (#[trigger] old(fragments)[k]).wf(),
        ensures
            final(fragments)@ == old(fragments)@.take(start as int),
            r.0 == old(fragments)[start as int],
            r.1 == old(fragments)[end as int],
            r.2@ == old(fragments)@.skip(end + 1),
    {
        let rest = fragments.split_off(end + 1);
        let end_run = fragments.remove(end);
        // A run that is cut on both sides is plain: its length stands for it.
        let start_run = if start == end {
            TextRange::Range(end_run.len())
        } else {
            fragments.swap_remove(start)
        };
        fragments.truncate(start);
        (start_run, end_run, rest)
    }

    /// Reads the tree in order as a list of faces and lengths: a plain run
    /// gives the tree's face and its length, a nested tree gives its own
    /// list. Each face in the list is a clone of the one in the tree.
    pub fn flatten(&self) -> (r: Vec<(F, usize)>) where F: Clone
        ensures
            copies(self@.flatten(), r@),
        decreases self,
    {
        let mut acc: Vec<(F, usize)> = Vec::new();
        let mut i: usize = 0;
        proof {
            self.lemma_view();
            lemma_runs_flatten_step(self@, 0);
        }
        while i < self.fragments.len()
            invariant
                i <= self.fragments.len(),
                self.mirrors(),
                copies(Tree::runs_flatten(self@.face, self@.runs.take(i as int)), acc@),
            decreases self.fragments.len() - i,
        {
            proof {
                lemma_runs_flatten_step(self@, i as int);
            }
            match &self.fragments[i] {
                TextRange::Range(len) => acc.push((self.face.clone(), *len)),
                TextRange::Decoration(d) => {
                    let mut inner = d.flatten();
                    acc.append(&mut inner);
                },
            }
            i = i + 1;
        }
        proof {
            lemma_runs_flatten_step(self@, 0);
        }
        acc
    }
}

} // verus!
