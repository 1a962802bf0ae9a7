//! Text fragments: inserted or replacing text that is borrowed until it has
//! to change.
use crate::document::joined;
use crate::indentation::indent_texts;
use crate::lines::has_line_start;
use crate::lines::indent_bytes;
use crate::lines::indented;
use crate::lines::lemma_pending_after_concat;
use crate::lines::pending_after;
use crate::lines::push_all;
use vstd::prelude::*;
use vstd::slice::slice_to_vec;
use vstd::string::StringSliceAdditionalSpecFns;
use vstd::utf8::encode_utf8;

verus! {

/// A piece of text that is either a view of text owned elsewhere or a buffer
/// of its own. A fragment stays borrowed until an edit rewrites it.
#[derive(Debug)]
pub enum TextFragment<'t> {
    Borrowed(&'t [u8]),
    Owned(Vec<u8>),
}

impl<'t> View for TextFragment<'t> {
    type V = Seq<u8>;

    open spec fn view(&self) -> Seq<u8> {
        match self {
            TextFragment::Borrowed(bytes) => bytes@,
            TextFragment::Owned(bytes) => bytes@,
        }
    }
}

/// Whether `fragment` is a fragment that borrows the text `text`.
pub open spec fn borrows(fragment: Option<TextFragment<'_>>, text: Seq<u8>) -> bool {
    match fragment {
        Some(held) => held is Borrowed && held@ == text,
        None => false,
    }
}

/// Whether `now` is `was` with one fragment that borrows `text` put in
/// front, if `grown` says so, and else is `was`.
pub open spec fn grown_in_front(
    now: Seq<TextFragment<'_>>,
    was: Seq<TextFragment<'_>>,
    grown: bool,
    text: Seq<u8>,
) -> bool {
    if grown {
        now.len() == was.len() + 1 && borrows(Some(now[0]), text) && now.skip(1) == was
    } else {
        now == was
    }
}

/// Whether `now` is `was` with one fragment that borrows `text` added
/// behind, if `grown` says so, and else is `was`.
pub open spec fn grown_behind(
    now: Seq<TextFragment<'_>>,
    was: Seq<TextFragment<'_>>,
    grown: bool,
    text: Seq<u8>,
) -> bool {
    if grown {
        now.len() == was.len() + 1 && borrows(Some(now.last()), text) && now.drop_last() == was
    } else {
        now == was
    }
}

/// Whether `now` is `was`, or `was` with one more fragment in front.
pub open spec fn kept_or_grown(now: Seq<TextFragment<'_>>, was: Seq<TextFragment<'_>>) -> bool {
    now == was || (now.len() == was.len() + 1 && now.skip(1) == was)
}

/// The texts of a list of fragments.
pub open spec fn texts(fragments: Seq<TextFragment<'_>>) -> Seq<Seq<u8>> {
    Seq::new(fragments.len(), |i: int| fragments[i]@)
}

impl<'t> TextFragment<'t> {
    /// A fragment that borrows `text`.
    pub fn borrowed(text: &'t str) -> (r: Self)
        ensures
            r@ == text.spec_bytes(),
            r is Borrowed,
    {
        TextFragment::Borrowed(text.as_bytes())
    }

    /// A fragment with a buffer of its own that holds `text`.
    pub fn owned(text: String) -> (r: Self)
        ensures
            r@ == encode_utf8(text@),
            r is Owned,
    {
        TextFragment::Owned(slice_to_vec(text.as_str().as_bytes()))
    }

    /// The empty fragment.
    pub fn empty() -> (r: Self)
        ensures
            r@ == Seq::<u8>::empty(),
            r is Borrowed,
    {
        proof {
            reveal_strlit("");
            assert(""@ =~= Seq::<char>::empty());
        }
        TextFragment::borrowed("")
    }

    /// The bytes of the fragment.
    pub fn as_bytes(&self) -> (r: &[u8])
        ensures
            r@ == self@,
    {
        match self {
            TextFragment::Borrowed(bytes) => bytes,
            TextFragment::Owned(bytes) => bytes.as_slice(),
        }
    }

    /// Puts `indent` in front of every byte of the fragment that begins a
    /// line, and returns the cursor after the fragment. A fragment in which
    /// no line begins is left as it is, borrowed or owned.
    pub fn indent(&mut self, indent: &[u8], pending: bool) -> (r: bool)
        ensures
            r == pending_after(old(self)@, pending),
            final(self)@ == indented(old(self)@, indent@, pending),
            !has_line_start(old(self)@, pending) ==> *final(self) == *old(self),
            has_line_start(old(self)@, pending) ==> *final(self) is Owned,
    {
        let (rewritten, next) = indent_bytes(self.as_bytes(), indent, pending);
        match rewritten {
            Some(bytes) => {
                *self = TextFragment::Owned(bytes);
            },
            None => {
                proof {
                    crate::lines::lemma_indented_without_line_start(self@, indent@, pending);
                }
            },
        }
        next
    }
}

/// Appends the texts of `fragments` to `out`.
pub fn push_fragments(out: &mut Vec<u8>, fragments: &Vec<TextFragment<'_>>)
    ensures
        final(out)@ == old(out)@ + joined(texts(fragments@)),
{
    let n = fragments.len();
    let mut i: usize = 0;
    assert(texts(fragments@).take(0) =~= Seq::<Seq<u8>>::empty());
    while i < n
        invariant
            i <= n,
            n == fragments@.len(),
            out@ == old(out)@ + joined(texts(fragments@).take(i as int)),
        decreases n - i,
    {
        push_all(out, fragments[i].as_bytes());
        proof {
            let all = texts(fragments@);
            assert(all.take(i + 1).drop_last() =~= all.take(i as int));
            assert(out@ =~= old(out)@ + joined(all.take(i + 1)));
        }
        i += 1;
    }
    assert(texts(fragments@).take(n as int) =~= texts(fragments@));
}

/// Indents the texts of `fragments` in order, the cursor running from one
/// into the next, and returns the cursor after the last.
pub fn indent_fragments(fragments: &mut Vec<TextFragment<'_>>, indent: &[u8], pending: bool) -> (r:
    bool)
    ensures
        texts(final(fragments)@) == indent_texts(texts(old(fragments)@), indent@, pending),
        r == pending_after(joined(texts(old(fragments)@)), pending),
        final(fragments)@.len() == old(fragments)@.len(),
        forall|i: int|
            0 <= i < old(fragments)@.len() && !has_line_start(
                (#[trigger] old(fragments)@[i])@,
                pending_after(joined(texts(old(fragments)@).take(i)), pending),
            ) ==> final(fragments)@[i] == old(fragments)@[i],
{
    let n = fragments.len();
    let ghost before = texts(fragments@);
    let mut flag = pending;
    let mut i: usize = 0;
    assert(before.take(0) =~= Seq::<Seq<u8>>::empty());
    assert(texts(fragments@).take(0) =~= Seq::<Seq<u8>>::empty());
    while i < n
        invariant
            i <= n,
            n == fragments@.len(),
            n == before.len(),
            forall|j: int| i <= j < n ==> #[trigger] fragments@[j] == old(fragments)@[j],
            before == texts(old(fragments)@),
            forall|j: int|
                0 <= j < i && !has_line_start(
                    (#[trigger] old(fragments)@[j])@,
                    pending_after(joined(before.take(j)), pending),
                ) ==> fragments@[j] == old(fragments)@[j],
            texts(fragments@).take(i as int) == indent_texts(before.take(i as int), indent@, pending),
            flag == pending_after(joined(before.take(i as int)), pending),
        decreases n - i,
    {
        let ghost done = texts(fragments@).take(i as int);
        flag = fragments[i].indent(indent, flag);
        proof {
            assert(before.take(i + 1).drop_last() =~= before.take(i as int));
            lemma_pending_after_concat(joined(before.take(i as int)), before[i as int], pending);
            assert(texts(fragments@).take(i + 1) =~= done.push(fragments@[i as int]@));
        }
        i += 1;
    }
    assert(before.take(n as int) =~= before);
    assert(texts(fragments@).take(n as int) =~= texts(fragments@));
    flag
}

} // verus!
