//! What indentation makes of a document.
//!
//! One cursor runs through the texts before the output, the contents of the
//! chunks in order, and the texts after the output. Texts inserted around a
//! single chunk are not passed and not indented. An edited chunk has its
//! content rewritten. An unedited chunk keeps its span of the source: a
//! boundary is made at every offset that begins a line, and the indent is
//! inserted there.
use crate::document::ChunkView;
use crate::document::Document;
use crate::document::joined;
use crate::document::lemma_split_chunks_concat;
use crate::document::lemma_split_chunks_origin;
use crate::document::lemma_split_chunks_undivided;
use crate::document::prepend_intro_at;
use crate::document::split_chunks;
use crate::lines::indented;
use crate::lines::line_starts;
use crate::lines::pending_after;
use crate::lines::TAB;
use crate::magic_string::indent::guessed_indent;
use vstd::prelude::*;

verus! {

/// The contents of `chunks` in order: the text that the cursor passes.
pub open spec fn contents(chunks: Seq<ChunkView>, source: Seq<u8>) -> Seq<u8>
    decreases chunks.len(),
{
    if chunks.len() == 0 {
        Seq::empty()
    } else {
        contents(chunks.drop_last(), source) + chunks.last().content(source)
    }
}

/// `parts` with each text indented, the cursor running from one text into
/// the next.
pub open spec fn indent_texts(parts: Seq<Seq<u8>>, indent: Seq<u8>, pending: bool) -> Seq<Seq<u8>>
    decreases parts.len(),
{
    if parts.len() == 0 {
        Seq::empty()
    } else {
        let head = parts.drop_last();
        indent_texts(head, indent, pending).push(
            indented(parts.last(), indent, pending_after(joined(head), pending)),
        )
    }
}

/// `chunks` with `indent` inserted at each of the offsets `starts`, taken in
/// order.
pub open spec fn mark_lines(chunks: Seq<ChunkView>, starts: Seq<int>, indent: Seq<u8>) -> Seq<
    ChunkView,
>
    decreases starts.len(),
{
    if starts.len() == 0 {
        chunks
    } else {
        prepend_intro_at(
            split_chunks(mark_lines(chunks, starts.drop_last(), indent), starts.last()),
            starts.last(),
            indent,
        )
    }
}

impl ChunkView {
    /// The chunk with its content replaced by `text`.
    pub open spec fn with_content(self, text: Seq<u8>) -> ChunkView {
        ChunkView {
            start: self.start,
            end: self.end,
            intro: self.intro,
            outro: self.outro,
            edited: Some(text),
            keep_original: self.keep_original,
        }
    }

    /// What indentation makes of the chunk, for a cursor that is `pending`
    /// when it reaches it.
    pub open spec fn indented(self, source: Seq<u8>, indent: Seq<u8>, pending: bool) -> Seq<
        ChunkView,
    > {
        match self.edited {
            Some(text) => seq![self.with_content(indented(text, indent, pending))],
            None => mark_lines(
                seq![self],
                line_starts(source, self.start, self.end, pending),
                indent,
            ),
        }
    }
}

/// What indentation makes of `chunks`, the cursor running from one content
/// into the next.
pub open spec fn indent_chunks(
    chunks: Seq<ChunkView>,
    source: Seq<u8>,
    indent: Seq<u8>,
    pending: bool,
) -> Seq<ChunkView>
    decreases chunks.len(),
{
    if chunks.len() == 0 {
        Seq::empty()
    } else {
        let head = chunks.drop_last();
        indent_chunks(head, source, indent, pending) + chunks.last().indented(
            source,
            indent,
            pending_after(contents(head, source), pending),
        )
    }
}

impl Document {
    /// The indent used where none is given: the one that the source uses,
    /// or one tab if it uses none.
    pub open spec fn default_indent(self) -> Seq<u8> {
        match guessed_indent(self.source) {
            Some(indent) => indent,
            None => seq![TAB],
        }
    }

    /// The cursor when it reaches the chunks: it starts pending and passes
    /// the texts before the output.
    pub open spec fn pending_at_chunks(self) -> bool {
        pending_after(joined(self.intro), true)
    }

    /// The cursor when it reaches the texts after the output.
    pub open spec fn pending_at_outro(self) -> bool {
        pending_after(contents(self.chunks, self.source), self.pending_at_chunks())
    }

    /// The document with every line of the output prefixed by `indent`. An
    /// empty indent changes nothing.
    pub open spec fn indented(self, indent: Seq<u8>) -> Document {
        if indent.len() == 0 {
            self
        } else {
            Document {
                source: self.source,
                intro: indent_texts(self.intro, indent, true),
                outro: indent_texts(self.outro, indent, self.pending_at_outro()),
                chunks: indent_chunks(
                    self.chunks,
                    self.source,
                    indent,
                    self.pending_at_chunks(),
                ),
            }
        }
    }
}

/// Inserting before the chunk that starts at `offset` distributes over
/// concatenation.
pub proof fn lemma_prepend_intro_concat(
    a: Seq<ChunkView>,
    b: Seq<ChunkView>,
    offset: int,
    text: Seq<u8>,
)
    ensures
        prepend_intro_at(a + b, offset, text) == prepend_intro_at(a, offset, text)
            + prepend_intro_at(b, offset, text),
{
    assert(prepend_intro_at(a + b, offset, text) =~= prepend_intro_at(a, offset, text)
        + prepend_intro_at(b, offset, text));
}

/// Whether an insertion at `offset` leaves all of `chunks` alone: none holds
/// the offset strictly inside, and none starts there.
pub open spec fn clear_of(chunks: Seq<ChunkView>, offset: int) -> bool {
    forall|i: int|
        0 <= i < chunks.len() ==> !(#[trigger] chunks[i]).contains(offset) && chunks[i].start
            != offset
}

/// An insertion at `offset` changes nothing in chunks that are clear of it.
pub proof fn lemma_clear_of(chunks: Seq<ChunkView>, offset: int, text: Seq<u8>)
    requires
        clear_of(chunks, offset),
    ensures
        prepend_intro_at(split_chunks(chunks, offset), offset, text) == chunks,
{
    lemma_split_chunks_undivided(chunks, offset);
    assert(prepend_intro_at(chunks, offset, text) =~= chunks);
}

/// An insertion at `offset` into `a + m + b`, where `a` and `b` are clear
/// of the offset, is the insertion into `m`.
pub proof fn lemma_insert_in_middle(
    a: Seq<ChunkView>,
    m: Seq<ChunkView>,
    b: Seq<ChunkView>,
    offset: int,
    text: Seq<u8>,
)
    requires
        clear_of(a, offset),
        clear_of(b, offset),
    ensures
        prepend_intro_at(split_chunks(a + m + b, offset), offset, text) == a + prepend_intro_at(
            split_chunks(m, offset),
            offset,
            text,
        ) + b,
{
    lemma_split_chunks_concat(a + m, b, offset);
    lemma_split_chunks_concat(a, m, offset);
    lemma_prepend_intro_concat(
        split_chunks(a, offset) + split_chunks(m, offset),
        split_chunks(b, offset),
        offset,
        text,
    );
    lemma_prepend_intro_concat(split_chunks(a, offset), split_chunks(m, offset), offset, text);
    lemma_clear_of(a, offset, text);
    lemma_clear_of(b, offset, text);
}

/// Whether all of `chunks` are unedited and lie within `start..end`.
pub open spec fn unedited_within(chunks: Seq<ChunkView>, start: int, end: int) -> bool {
    forall|i: int|
        0 <= i < chunks.len() ==> (#[trigger] chunks[i]).edited is None && start <= chunks[i].start
            && chunks[i].end <= end
}

/// An insertion into unedited chunks within a range leaves unedited chunks
/// within that range.
pub proof fn lemma_insert_keeps_unedited(
    chunks: Seq<ChunkView>,
    offset: int,
    text: Seq<u8>,
    start: int,
    end: int,
)
    requires
        unedited_within(chunks, start, end),
    ensures
        unedited_within(
            prepend_intro_at(split_chunks(chunks, offset), offset, text),
            start,
            end,
        ),
{
    let cut = split_chunks(chunks, offset);
    let now = prepend_intro_at(cut, offset, text);
    assert forall|i: int| 0 <= i < now.len() implies (#[trigger] now[i]).edited is None && start
        <= now[i].start && now[i].end <= end by {
        let j = lemma_split_chunks_origin(chunks, offset, i);
        assert(chunks[j].edited is None);
    }
}

} // verus!
