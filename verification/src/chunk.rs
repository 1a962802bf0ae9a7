//! Chunks: the nodes of the list that partitions the source.
use crate::document::ChunkView;
use crate::fragment::push_fragments;
use crate::fragment::TextFragment;
use crate::fragment::texts;
use crate::lines::has_line_start;
use crate::lines::indented;
use crate::lines::pending_after;
use crate::lines::push_all;
use vstd::prelude::*;
use vstd::slice::slice_subrange;

verus! {

/// How an edit treats what the chunk already carries.
#[derive(Debug, Clone, Copy)]
pub struct EditOptions {
    /// Drop the texts inserted before and after the chunk.
    pub overwrite: bool,
    /// Remember that the chunk's original text is wanted for name mapping.
    pub store_name: bool,
}

impl Default for EditOptions {
    fn default() -> (r: Self)
        ensures
            !r.overwrite,
            !r.store_name,
    {
        EditOptions { overwrite: false, store_name: false }
    }
}

/// A node of the chunk list. It stands for the span `start..end` of the
/// source; `prev` and `next` are positions in the store that holds the list.
#[derive(Debug)]
pub struct Chunk<'t> {
    pub start: u32,
    pub end: u32,
    /// Texts inserted in front of the chunk's content.
    pub intro: Vec<TextFragment<'t>>,
    /// Texts inserted behind the chunk's content.
    pub outro: Vec<TextFragment<'t>>,
    /// The text that replaces the span, if the chunk has been edited.
    pub edited_content: Option<TextFragment<'t>>,
    /// Whether the original text of the span is wanted for name mapping.
    pub keep_original: bool,
    pub prev: Option<usize>,
    pub next: Option<usize>,
}

impl<'t> View for Chunk<'t> {
    type V = ChunkView;

    open spec fn view(&self) -> ChunkView {
        ChunkView {
            start: self.start as int,
            end: self.end as int,
            intro: texts(self.intro@),
            outro: texts(self.outro@),
            edited: match self.edited_content {
                Some(fragment) => Some(fragment@),
                None => None,
            },
            keep_original: self.keep_original,
        }
    }
}

impl<'t> Chunk<'t> {
    /// An untouched chunk over `start..end` that is linked to nothing.
    pub fn new(start: u32, end: u32) -> (r: Self)
        ensures
            r@ == ChunkView::fresh(start as int, end as int),
            r.prev is None,
            r.next is None,
    {
        let r = Chunk {
            start,
            end,
            intro: Vec::new(),
            outro: Vec::new(),
            edited_content: None,
            keep_original: false,
            prev: None,
            next: None,
        };
        assert(r@.intro =~= Seq::empty() && r@.outro =~= Seq::empty());
        r
    }

    /// Whether `offset` lies strictly inside the span.
    pub fn contains(&self, offset: u32) -> (r: bool)
        ensures
            r == self@.contains(offset as int),
    {
        self.start < offset && offset < self.end
    }

    /// Whether the content has been replaced.
    pub fn is_edited(&self) -> (r: bool)
        ensures
            r == (self@.edited is Some),
    {
        self.edited_content.is_some()
    }

    /// Replaces the content by `content`.
    pub fn edit(&mut self, content: TextFragment<'t>, opts: EditOptions)
        ensures
            final(self)@ == old(self)@.edit(content@, opts.overwrite, opts.store_name),
            final(self).edited_content == Some(content),
            !opts.overwrite ==> final(self).intro == old(self).intro && final(self).outro == old(
                self,
            ).outro,
            opts.overwrite ==> final(self).intro@ == Seq::<TextFragment<'t>>::empty() && final(self).outro@ == Seq::<TextFragment<'t>>::empty(),
            final(self).start == old(self).start,
            final(self).end == old(self).end,
            final(self).prev == old(self).prev,
            final(self).next == old(self).next,
    {
        if opts.overwrite {
            self.intro.clear();
            self.outro.clear();
        }
        self.keep_original = opts.store_name;
        self.edited_content = Some(content);
        assert(self@.intro =~= old(self)@.edit(content@, opts.overwrite, opts.store_name).intro);
        assert(self@.outro =~= old(self)@.edit(content@, opts.overwrite, opts.store_name).outro);
    }

    /// Cuts the chunk at `offset`. The chunk becomes the left half and keeps
    /// its links; the right half is returned, linked to nothing.
    pub fn split(&mut self, offset: u32) -> (right: Chunk<'t>)
        requires
            old(self)@.divided_at(offset as int),
        ensures
            final(self)@ == old(self)@.left_of(offset as int),
            right@ == old(self)@.right_of(offset as int),
            final(self).intro == old(self).intro,
            final(self).outro@ == Seq::<TextFragment<'t>>::empty(),
            final(self).edited_content == old(self).edited_content,
            right.intro@ == Seq::<TextFragment<'t>>::empty(),
            right.outro == old(self).outro,
            final(self).prev == old(self).prev,
            final(self).next == old(self).next,
            right.prev is None,
            right.next is None,
    {
        let mut right = Chunk::new(offset, self.end);
        std::mem::swap(&mut right.outro, &mut self.outro);
        self.end = offset;
        assert(self@.outro =~= Seq::empty());
        right
    }

    /// Puts `indent` in front of every byte of the replacing text that
    /// begins a line, and returns the cursor after it.
    pub(crate) fn indent_content(&mut self, indent: &[u8], pending: bool) -> (r: bool)
        requires
            old(self)@.edited is Some,
        ensures
            final(self)@ == old(self)@.with_content(
                indented(old(self)@.edited->0, indent@, pending),
            ),
            r == pending_after(old(self)@.edited->0, pending),
            !has_line_start(old(self)@.edited->0, pending) ==> final(self).edited_content == old(
                self,
            ).edited_content,
            final(self).intro == old(self).intro,
            final(self).outro == old(self).outro,
            final(self).start == old(self).start,
            final(self).end == old(self).end,
            final(self).prev == old(self).prev,
            final(self).next == old(self).next,
    {
        match &mut self.edited_content {
            Some(fragment) => fragment.indent(indent, pending),
            None => pending,
        }
    }

    /// Appends the chunk's part of the output to `out`.
    pub(crate) fn render_into(&self, out: &mut Vec<u8>, source: &[u8])
        requires
            self.start <= self.end <= source@.len(),
        ensures
            final(out)@ == old(out)@ + self@.rendered(source@),
    {
        push_fragments(out, &self.intro);
        match &self.edited_content {
            Some(fragment) => push_all(out, fragment.as_bytes()),
            None => push_all(out, slice_subrange(source, self.start as usize, self.end as usize)),
        }
        push_fragments(out, &self.outro);
        assert(out@ =~= old(out)@ + self@.rendered(source@));
    }

    /// Inserts `content` in front of all that stands before the content.
    pub fn prepend_intro(&mut self, content: TextFragment<'t>)
        ensures
            final(self)@ == old(self)@.prepend_intro(content@),
            final(self).intro@ == old(self).intro@.insert(0, content),
            final(self).outro == old(self).outro,
            final(self).edited_content == old(self).edited_content,
            final(self).prev == old(self).prev,
            final(self).next == old(self).next,
    {
        self.intro.insert(0, content);
        assert(self@.intro =~= seq![content@] + old(self)@.intro);
    }

    /// Adds `content` behind all that stands after the content.
    pub fn append_outro(&mut self, content: TextFragment<'t>)
        ensures
            final(self)@ == old(self)@.append_outro(content@),
            final(self).outro@ == old(self).outro@.push(content),
            final(self).intro == old(self).intro,
            final(self).edited_content == old(self).edited_content,
            final(self).prev == old(self).prev,
            final(self).next == old(self).next,
    {
        self.outro.push(content);
        assert(self@.outro =~= old(self)@.outro.push(content@));
    }
}

} // verus!
