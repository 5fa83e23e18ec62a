//! Decorated text as it comes out: pieces of text, each with its face.

use crate::utf8::lemma_encode_add;
use std::slice::Iter;
use vstd::prelude::*;
use vstd::std_specs::convert::FromSpecImpl;
use vstd::std_specs::slice::into_iter_elts;
use vstd::string::StringExecFns;
use vstd::utf8::encode_utf8;

verus! {

/// A piece of a decorated text.
#[derive(Clone, Debug, PartialEq)]
pub struct TextFragment<F> {
    /// The raw text.
    pub text: String,
    /// The associated face.
    pub face: F,
}

/// A decorated text: its fragments from left to right.
#[derive(Clone, Debug, PartialEq)]
pub struct Text<F>(Vec<TextFragment<F>>);

/// An iterator over the fragments of a text.
pub type TextIterator<'a, F> = Iter<'a, TextFragment<F>>;

/// The texts of `fragments`, one behind the other.
pub open spec fn plain_of<F>(fragments: Seq<TextFragment<F>>) -> Seq<char>
    decreases fragments.len(),
{
    if fragments.len() == 0 {
        Seq::empty()
    } else {
        plain_of(fragments.drop_last()) + fragments.last().text@
    }
}

/// The number of bytes that the texts of `fragments` take as UTF-8.
pub open spec fn byte_len_of<F>(fragments: Seq<TextFragment<F>>) -> nat
    decreases fragments.len(),
{
    if fragments.len() == 0 {
        0
    } else {
        byte_len_of(fragments.drop_last()) + encode_utf8(fragments.last().text@).len()
    }
}

/// The strings of `parts`, one behind the other.
pub open spec fn concat(parts: Seq<String>) -> Seq<char>
    decreases parts.len(),
{
    if parts.len() == 0 {
        Seq::empty()
    } else {
        concat(parts.drop_last()) + parts.last()@
    }
}

/// `out` is what `decorator` makes of `fragments`: there is one string for
/// each fragment that a call of `decorator` on it may return, and `out` is
/// these strings in order.
pub open spec fn rendered<F, G: Fn(&TextFragment<F>) -> String>(
    fragments: Seq<TextFragment<F>>,
    decorator: G,
    out: Seq<char>,
) -> bool {
    exists|parts: Seq<String>| #[trigger]
        renders(fragments, decorator, parts) && out == concat(parts)
}

/// `decorator` may be called on each of `fragments`.
pub open spec fn accepts<F, G: Fn(&TextFragment<F>) -> String>(
    fragments: Seq<TextFragment<F>>,
    decorator: G,
) -> bool {
    forall|i: int|
        0 <= i < fragments.len() ==> #[trigger] call_requires(decorator, (&fragments[i],))
}

/// `parts` holds for each fragment a string that `decorator` may return
/// for it.
pub open spec fn renders<F, G: Fn(&TextFragment<F>) -> String>(
    fragments: Seq<TextFragment<F>>,
    decorator: G,
    parts: Seq<String>,
) -> bool {
    &&& parts.len() == fragments.len()
    &&& forall|i: int|
        0 <= i < fragments.len() ==> call_ensures(decorator, (&fragments[i],), #[trigger] parts[i])
}

impl<F> View for Text<F> {
    type V = Seq<TextFragment<F>>;

    closed spec fn view(&self) -> Seq<TextFragment<F>> {
        self.0@
    }
}

impl<F> Text<F> {
    /// Returns the length of the underlying text, without decorations, in
    /// bytes.
    pub fn text_len(&self) -> (n: usize)
        requires
            byte_len_of(self@) <= usize::MAX,
        ensures
            n == byte_len_of(self@),
    {
        let mut acc: usize = 0;
        let mut i: usize = 0;
        assert(self.0@.take(0) =~= Seq::<TextFragment<F>>::empty());
        while i < self.0.len()
            invariant
                i <= self.0.len(),
                acc == byte_len_of(self.0@.take(i as int)),
                byte_len_of(self.0@) <= usize::MAX,
            decreases self.0.len() - i,
        {
            proof {
                lemma_byte_len_prefix(self.0@, i as int);
                lemma_byte_len_prefix(self.0@, self.0@.len() as int);
                lemma_byte_len_monotone(self.0@, i as int + 1);
            }
            acc = acc + self.0[i].text.as_str().len();
            i = i + 1;
        }
        proof {
            lemma_byte_len_prefix(self.0@, self.0@.len() as int);
        }
        acc
    }

    /// Converts the decorated text into rich text: `decorator` is called on
    /// each fragment in order, and what it returns is put together.
    pub fn render<G>(&self, decorator: G) -> (out: String) where G: Fn(&TextFragment<F>) -> String
        requires
            accepts(self@, decorator),
        ensures
            rendered(self@, decorator, out@),
    {
        let mut out = String::new();
        let ghost mut parts: Seq<String> = Seq::empty();
        let mut i: usize = 0;
        while i < self.0.len()
            invariant
                i <= self.0.len(),
                accepts(self.0@, decorator),
                renders(self.0@.take(i as int), decorator, parts),
                out@ == concat(parts),
            decreases self.0.len() - i,
        {
            assert(call_requires(decorator, (&self.0@[i as int],)));
            let part = decorator(&self.0[i]);
            out.append(part.as_str());
            proof {
                let longer = parts.push(part);
                assert(longer.drop_last() =~= parts);
                assert(renders(self.0@.take(i as int + 1), decorator, longer));
                parts = longer;
            }
            i = i + 1;
        }
        proof {
            assert(self.0@.take(self.0@.len() as int) =~= self.0@);
            assert(renders(self@, decorator, parts));
        }
        out
    }

    /// Converts the decorated text into plain text, stripping all
    /// decorations.
    pub fn plain(&self) -> (out: String)
        ensures
            out@ == plain_of(self@),
    {
        let mut out = String::new();
        let mut i: usize = 0;
        assert(self.0@.take(0) =~= Seq::<TextFragment<F>>::empty());
        while i < self.0.len()
            invariant
                i <= self.0.len(),
                out@ == plain_of(self.0@.take(i as int)),
            decreases self.0.len() - i,
        {
            proof {
                assert(self.0@.take(i as int + 1).drop_last() =~= self.0@.take(i as int));
            }
            out.append(self.0[i].text.as_str());
            i = i + 1;
        }
        proof {
            assert(self.0@.take(self.0@.len() as int) =~= self.0@);
        }
        out
    }

    /// Returns an iterator over the fragments, from left to right.
    pub fn iter(&self) -> (it: TextIterator<'_, F>)
        ensures
            into_iter_elts(it) == self@,
    {
        let fragments = self.0.as_slice();
        let it = fragments.iter();
        proof {
            vstd::std_specs::slice::axiom_spec_slice_iter(fragments);
            assert(into_iter_elts(it) =~= self@);
        }
        it
    }
}

impl<F> Default for Text<F> {
    /// The text without fragments.
    fn default() -> (ret: Text<F>)
        ensures
            ret@ == Seq::<TextFragment<F>>::empty(),
    {
        Text(Vec::new())
    }
}

impl<'a, F> IntoIterator for &'a Text<F> {
    type Item = &'a TextFragment<F>;

    type IntoIter = TextIterator<'a, F>;

    fn into_iter(self) -> (it: TextIterator<'a, F>)
        ensures
            into_iter_elts(it) == self@,
    {
        self.iter()
    }
}

impl<'a, F: Default> From<&'a str> for TextFragment<F> {
    /// The fragment that holds `s` under the default face.
    fn from(s: &'a str) -> (ret: TextFragment<F>)
        ensures
            ret.text@ == s@,
            call_ensures(F::default, (), ret.face),
    {
        TextFragment { text: s.to_owned(), face: F::default() }
    }
}

impl<'a, F: Default> FromSpecImpl<&'a str> for TextFragment<F> {
    open spec fn obeys_from_spec() -> bool {
        false
    }

    open spec fn from_spec(s: &'a str) -> TextFragment<F> {
        arbitrary()
    }
}

impl<F: Default> From<String> for TextFragment<F> {
    /// The fragment that holds `s` under the default face.
    fn from(s: String) -> (ret: TextFragment<F>)
        ensures
            ret.text@ == s@,
            call_ensures(F::default, (), ret.face),
    {
        TextFragment { text: s, face: F::default() }
    }
}

impl<F: Default> FromSpecImpl<String> for TextFragment<F> {
    open spec fn obeys_from_spec() -> bool {
        false
    }

    open spec fn from_spec(s: String) -> TextFragment<F> {
        arbitrary()
    }
}

impl<F> From<Vec<TextFragment<F>>> for Text<F> {
    /// The text of the given fragments, in their order.
    fn from(tfs: Vec<TextFragment<F>>) -> (ret: Text<F>)
        ensures
            ret@ == tfs@,
    {
        Text(tfs)
    }
}

impl<F> FromSpecImpl<Vec<TextFragment<F>>> for Text<F> {
    open spec fn obeys_from_spec() -> bool {
        true
    }

    closed spec fn from_spec(tfs: Vec<TextFragment<F>>) -> Text<F> {
        Text(tfs)
    }
}

impl<F> From<TextFragment<F>> for Text<F> {
    /// The text of one fragment.
    fn from(tf: TextFragment<F>) -> (ret: Text<F>)
        ensures
            ret@ == seq![tf],
    {
        let mut fragments = Vec::new();
        fragments.push(tf);
        proof {
            assert(fragments@ =~= seq![tf]);
        }
        Text(fragments)
    }
}

impl<F> FromSpecImpl<TextFragment<F>> for Text<F> {
    open spec fn obeys_from_spec() -> bool {
        false
    }

    open spec fn from_spec(tf: TextFragment<F>) -> Text<F> {
        arbitrary()
    }
}

impl<'a, F: Default> From<&'a str> for Text<F> {
    /// The text of one fragment that holds `s` under the default face.
    fn from(s: &'a str) -> (ret: Text<F>)
        ensures
            ret@.len() == 1,
            ret@[0].text@ == s@,
            call_ensures(F::default, (), ret@[0].face),
    {
        let mut fragments = Vec::new();
        fragments.push(TextFragment { text: s.to_owned(), face: F::default() });
        Text(fragments)
    }
}

impl<'a, F: Default> FromSpecImpl<&'a str> for Text<F> {
    open spec fn obeys_from_spec() -> bool {
        false
    }

    open spec fn from_spec(s: &'a str) -> Text<F> {
        arbitrary()
    }
}

impl<F: Default> From<String> for Text<F> {
    /// The text of one fragment that holds `s` under the default face.
    fn from(s: String) -> (ret: Text<F>)
        ensures
            ret@.len() == 1,
            ret@[0].text@ == s@,
            call_ensures(F::default, (), ret@[0].face),
    {
        let mut fragments = Vec::new();
        fragments.push(TextFragment { text: s, face: F::default() });
        Text(fragments)
    }
}

impl<F: Default> FromSpecImpl<String> for Text<F> {
    open spec fn obeys_from_spec() -> bool {
        false
    }

    open spec fn from_spec(s: String) -> Text<F> {
        arbitrary()
    }
}

/// The byte length of a text is the length of its plain text as UTF-8.
pub proof fn law_byte_len_of_plain<F>(fragments: Seq<TextFragment<F>>)
    ensures
        byte_len_of(fragments) == encode_utf8(plain_of(fragments)).len(),
    decreases fragments.len(),
{
    if fragments.len() > 0 {
        law_byte_len_of_plain(fragments.drop_last());
        lemma_encode_add(plain_of(fragments.drop_last()), fragments.last().text@);
    }
}

/// The bytes of the first `i + 1` fragments are those of the first `i`
/// and those of fragment `i`.
pub proof fn lemma_byte_len_prefix<F>(fragments: Seq<TextFragment<F>>, i: int)
    ensures
        0 <= i < fragments.len() ==> byte_len_of(fragments.take(i + 1)) == byte_len_of(
            fragments.take(i),
        ) + encode_utf8(fragments[i].text@).len(),
        byte_len_of(fragments.take(fragments.len() as int)) == byte_len_of(fragments),
{
    if 0 <= i < fragments.len() {
        assert(fragments.take(i + 1).drop_last() =~= fragments.take(i));
    }
    assert(fragments.take(fragments.len() as int) =~= fragments);
}

/// The first fragments take no more bytes than all of them.
pub proof fn lemma_byte_len_monotone<F>(fragments: Seq<TextFragment<F>>, i: int)
    requires
        0 <= i <= fragments.len(),
    ensures
        byte_len_of(fragments.take(i)) <= byte_len_of(fragments),
    decreases fragments.len() - i,
{
    lemma_byte_len_prefix(fragments, i);
    if i < fragments.len() {
        lemma_byte_len_monotone(fragments, i + 1);
    }
}

} // verus!
