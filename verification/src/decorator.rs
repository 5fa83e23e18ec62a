//! The builder of decorated text.

use crate::decorations::Decorations;
use crate::laws::{law_flatten_complete, law_grown_cuts, law_set_cuts};
use crate::lemmas::lemma_cut_bounds;
use crate::model::{copies, cut, cuts_satisfy, repeat, Tree};
use crate::text::{byte_len_of, plain_of, Text, TextFragment};
use crate::utf8::{
    lemma_boundary_at_ends, lemma_boundary_in_prefix, lemma_boundary_in_range,
    lemma_boundary_in_suffix, lemma_encode_add, lemma_encode_injective,
};
use std::ops::Range;
use vstd::prelude::*;
use vstd::std_specs::cmp::PartialEqSpec;
use vstd::string::StringExecFns;
use vstd::utf8::{encode_utf8, is_char_boundary, valid_utf8};

verus! {

/// A helper type to build a `Text`.
///
/// Text is appended under a current face, faces are given to ranges of what
/// was appended, or both.
pub struct Decorator<F: Default> {
    text: String,
    current_face: F,
    decorations: Decorations<F>,
}

/// What a builder holds: the text so far, the face that the next text will
/// get, and the face of every byte of the text.
pub struct DecoratorView<F> {
    pub text: Seq<char>,
    pub current_face: F,
    pub tree: Tree<F>,
}

impl<F: Default> View for Decorator<F> {
    type V = DecoratorView<F>;

    closed spec fn view(&self) -> DecoratorView<F> {
        DecoratorView {
            text: self.text@,
            current_face: self.current_face,
            tree: self.decorations@,
        }
    }
}

impl<F> DecoratorView<F> {
    /// The text as UTF-8.
    pub open spec fn bytes(self) -> Seq<u8> {
        encode_utf8(self.text)
    }

    /// The tree covers the text byte for byte, and the text is no longer
    /// than a `usize` can count.
    pub open spec fn wf(self) -> bool {
        &&& self.tree.len() == self.bytes().len()
        &&& self.tree.len() <= usize::MAX
    }

    /// `offset` does not fall inside the encoding of a character.
    pub open spec fn is_boundary(self, offset: nat) -> bool {
        is_char_boundary(self.bytes(), offset as int)
    }

    /// The text can be cut into the pieces that the tree asks for: no run
    /// starts or ends inside the encoding of a character.
    pub open spec fn sliceable(self) -> bool {
        cuts_satisfy(self.tree.flatten(), 0, |offset: nat| self.is_boundary(offset))
    }
}

impl<F: Clone> DecoratorView<F> {
    /// `out` is the text cut along the tree: one fragment for each entry of
    /// the tree's list, with a clone of its face and the bytes that it
    /// covers.
    pub open spec fn built(self, out: Seq<TextFragment<F>>) -> bool {
        let list = self.tree.flatten();
        &&& out.len() == list.len()
        &&& forall|i: int|
            0 <= i < list.len() ==> cloned(list[i].0, (#[trigger] out[i]).face) && encode_utf8(
                out[i].text@,
            ) == self.bytes().subrange(cut(list, i) as int, cut(list, i + 1) as int)
    }
}

impl<F> Decorator<F> where F: Clone + Default + PartialEq {
    /// The builder is consistent: see `DecoratorView::wf`.
    pub open spec fn wf(&self) -> bool {
        self@.wf()
    }

    /// Creates a new empty `Decorator`: no text, and the default face both
    /// as the current face and as the face of the tree.
    pub fn new() -> (ret: Decorator<F>)
        ensures
            ret.wf(),
            ret@.sliceable(),
            ret@.text == Seq::<char>::empty(),
            ret@.tree == Tree::empty(ret@.tree.face),
            call_ensures(F::default, (), ret@.current_face),
            call_ensures(F::default, (), ret@.tree.face),
    {
        let ret = Decorator {
            text: String::new(),
            current_face: F::default(),
            decorations: Decorations::new(F::default()),
        };
        proof {
            lemma_boundary_at_ends(ret@.text);
            lemma_cut_bounds(ret@.tree.flatten(), 0);
        }
        ret
    }

    /// Returns the current face, which the next appended text will get.
    pub fn current_face(&self) -> (face: &F)
        ensures
            *face == self@.current_face,
    {
        &self.current_face
    }

    /// Sets the current face.
    pub fn set_face(&mut self, face: F) -> (ret: &mut Self)
        ensures
            ret@ == (DecoratorView { current_face: face, ..old(self)@ }),
            *final(self) == *final(ret),
    {
        self.current_face = face;
        self
    }

    /// Resets the current face to the default face.
    pub fn reset_face(&mut self) -> (ret: &mut Self)
        ensures
            call_ensures(F::default, (), ret@.current_face),
            ret@ == (DecoratorView { current_face: ret@.current_face, ..old(self)@ }),
            *final(self) == *final(ret),
    {
        self.set_face(F::default());
        self
    }

    /// Creates a new `Decorator` initialized with `text` under the default
    /// face.
    pub fn with_text(text: &str) -> (ret: Decorator<F>)
        ensures
            ret.wf(),
            ret@.text == text@,
            ret@.sliceable(),
            call_ensures(F::default, (), ret@.current_face),
            call_ensures(F::default, (), ret@.tree.face),
            F::obeys_eq_spec() ==> exists|face: F| #[trigger]
                cloned(ret@.current_face, face) && ret@.tree == Tree::empty(ret@.tree.face).append(
                    face,
                    encode_utf8(text@).len(),
                ),
    {
        let mut decorator = Decorator::new();
        proof {
            assert(decorator@.text + text@ =~= text@);
        }
        decorator.append(text);
        decorator
    }

    /// Appends `text` to the buffer and assigns it the current face.
    pub fn append(&mut self, text: &str) -> (ret: &mut Self)
        requires
            old(self).wf(),
        ensures
            *final(self) == *final(ret),
            ret.wf(),
            ret@.text == old(self)@.text + text@,
            ret@.current_face == old(self)@.current_face,
            ret@.tree.face == old(self)@.tree.face,
            ret@.tree.len() == old(self)@.tree.len() + encode_utf8(text@).len(),
            F::obeys_eq_spec() ==> exists|face: F| #[trigger]
                cloned(old(self)@.current_face, face) && ret@.tree == old(self)@.tree.append(
                    face,
                    encode_utf8(text@).len(),
                ),
            exists|face: F| #[trigger]
                cloned(old(self)@.current_face, face) && old(self)@.tree.grown_by(
                    ret@.tree,
                    face,
                    encode_utf8(text@).len(),
                ),
            old(self)@.sliceable() ==> ret@.sliceable(),
    {
        let before = byte_len(self.text.as_str());
        self.text.append(text);
        let after = byte_len(self.text.as_str());
        proof {
            lemma_encode_add(old(self)@.text, text@);
        }
        let face = self.current_face.clone();
        self.decorations.append(face, after - before);
        proof {
            assert(cloned(old(self)@.current_face, face));
            if old(self)@.sliceable() {
                let was = old(self)@;
                let now = self@;
                let list = was.tree.flatten();
                lemma_boundary_at_ends(was.text);
                lemma_boundary_at_ends(text@);
                lemma_boundary_at_ends(now.text);
                law_flatten_complete(was.tree);
                assert forall|k: int| 0 <= k <= list.len() implies now.is_boundary(
                    #[trigger] cut(list, k),
                ) by {
                    assert(was.is_boundary(cut(list, k)));
                    lemma_boundary_in_prefix(was.bytes(), encode_utf8(text@), cut(list, k) as int);
                }
                assert(cuts_satisfy(list, 0, |offset: nat| now.is_boundary(offset)));
                law_grown_cuts(
                    was.tree,
                    now.tree,
                    face,
                    (after - before) as nat,
                    0,
                    |offset: nat| now.is_boundary(offset),
                );
            }
        }
        self
    }

    /// Assigns `face` to the given range, which is first cut down to the
    /// text: an end that lies behind the text is taken as the end of the
    /// text. It overrides all faces previously assigned to this range.
    pub fn set(&mut self, face: F, range: Range<usize>) -> (ret: &mut Self)
        requires
            old(self).wf(),
        ensures
            *final(self) == *final(ret),
            ret.wf(),
            ret@.text == old(self)@.text,
            ret@.current_face == old(self)@.current_face,
            ret@.tree == old(self)@.tree.set(
                face,
                old(self)@.tree.clamp(range.start as nat),
                old(self)@.tree.clamp(range.end as nat),
            ),
            range.start <= range.end ==> ret@.tree.faces() == old(self)@.tree.faces().take(
                old(self)@.tree.clamp(range.start as nat) as int,
            ) + repeat(
                face,
                (old(self)@.tree.clamp(range.end as nat) - old(self)@.tree.clamp(
                    range.start as nat,
                )) as nat,
            ) + old(self)@.tree.faces().skip(old(self)@.tree.clamp(range.end as nat) as int),
            old(self)@.sliceable() && (old(self)@.tree.clamp(range.start as nat)
                < old(self)@.tree.clamp(range.end as nat) ==> old(self)@.is_boundary(
                old(self)@.tree.clamp(range.start as nat),
            ) && old(self)@.is_boundary(old(self)@.tree.clamp(range.end as nat)))
                ==> ret@.sliceable(),
    {
        let len = self.decorations.len();
        let start = if range.start < len { range.start } else { len };
        let end = if range.end < len { range.end } else { len };
        proof {
            let was = old(self)@;
            if was.sliceable() && was.is_boundary(start as nat) && was.is_boundary(end as nat)
                && start < end {
                law_set_cuts(
                    was.tree,
                    face,
                    start as nat,
                    end as nat,
                    0,
                    |offset: nat| was.is_boundary(offset),
                );
            }
        }
        self.decorations.set(face, start..end);
        self
    }

    /// Processes all face assignations and returns the corresponding `Text`:
    /// the text cut along the list of the tree.
    pub fn build(&mut self) -> (ret: Text<F>)
        requires
            old(self).wf(),
            old(self)@.sliceable(),
        ensures
            *final(self) == *old(self),
            old(self)@.built(ret@),
            plain_of(ret@) == old(self)@.text,
            byte_len_of(ret@) == old(self)@.bytes().len(),
    {
        let runs = self.decorations.flatten();
        let mut fragments: Vec<TextFragment<F>> = Vec::new();
        let mut rest: &str = self.text.as_str();
        let ghost view = self@;
        let ghost list = view.tree.flatten();
        let ghost mut at: nat = 0;
        proof {
            lemma_boundary_at_ends(view.text);
            law_flatten_complete(view.tree);
            lemma_cut_bounds(list, 0);
            assert(view.bytes().skip(0) =~= view.bytes());
            assert(view.bytes().take(0) =~= Seq::<u8>::empty());
        }
        for entry in it: runs
            invariant
                view.wf(),
                view.sliceable(),
                list == view.tree.flatten(),
                copies(list, it.seq()),
                fragments@.len() == it.index(),
                at == cut(list, it.index() as int),
                at <= view.bytes().len(),
                valid_utf8(view.bytes()),
                encode_utf8(rest@) == view.bytes().skip(at as int),
                forall|i: int|
                    0 <= i < fragments@.len() ==> cloned(list[i].0, (#[trigger] fragments@[i]).face)
                        && encode_utf8(fragments@[i].text@) == view.bytes().subrange(
                        cut(list, i) as int,
                        cut(list, i + 1) as int,
                    ),
                encode_utf8(plain_of(fragments@)) == view.bytes().take(at as int),
                byte_len_of(fragments@) == at,
        {
            let (face, len) = entry;
            proof {
                let k = it.index() as int;
                assert(list.take(k + 1).drop_last() =~= list.take(k));
                assert(view.is_boundary(cut(list, k)));
                assert(view.is_boundary(cut(list, k + 1)));
                lemma_boundary_in_suffix(view.bytes(), at as int, len as int);
                lemma_boundary_in_range(view.bytes(), at as int + len as int);
            }
            let (piece, behind) = rest.split_at(len);
            let text = piece.to_owned();
            proof {
                let bytes = view.bytes();
                assert(encode_utf8(piece@) =~= bytes.subrange(at as int, at + len));
                assert(encode_utf8(behind@) =~= bytes.skip(at + len));
                lemma_encode_add(plain_of(fragments@), text@);
                assert(bytes.take(at as int) + bytes.subrange(at as int, at + len) =~= bytes.take(
                    at + len,
                ));
                let longer = fragments@.push(TextFragment { text, face });
                assert(longer.drop_last() =~= fragments@);
                at = at + len as nat;
            }
            fragments.push(TextFragment { text, face });
            rest = behind;
        }
        proof {
            lemma_cut_bounds(list, list.len() as int);
            assert(view.bytes().take(view.bytes().len() as int) =~= view.bytes());
            lemma_encode_injective(plain_of(fragments@), view.text);
        }
        Text::from(fragments)
    }
}

/// The number of bytes that `text` takes as UTF-8.
fn byte_len(text: &str) -> (n: usize)
    ensures
        n == encode_utf8(text@).len(),
{
    text.as_bytes().len()
}

impl<F> Default for Decorator<F> where F: Clone + Default + PartialEq {
    /// The empty builder, as `new` makes it.
    fn default() -> (ret: Decorator<F>)
        ensures
            ret.wf(),
            ret@.sliceable(),
            ret@.text == Seq::<char>::empty(),
            ret@.tree == Tree::empty(ret@.tree.face),
            call_ensures(F::default, (), ret@.current_face),
            call_ensures(F::default, (), ret@.tree.face),
    {
        Self::new()
    }
}

} // verus!
