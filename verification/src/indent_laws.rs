//! What indentation does to the output.
use crate::document::ChunkView;
use crate::document::Document;
use crate::document::joined;
use crate::document::lemma_split_chunks_concat;
use crate::document::lemma_split_chunks_undivided;
use crate::document::render_chunks;
use crate::document::split_chunks;
use crate::indentation::contents;
use crate::indentation::indent_chunks;
use crate::indentation::indent_texts;
use crate::indentation::mark_lines;
use crate::laws::lemma_render_chunks_concat;
use crate::laws::lemma_render_one;
use crate::lines::indented;
use crate::lines::last_mark;
use crate::lines::lemma_indented_by_nothing;
use crate::lines::lemma_indented_concat;
use crate::lines::lemma_indented_span;
use crate::lines::lemma_line_starts_rising;
use crate::lines::lemma_line_starts_within;
use crate::lines::lemma_pending_after_concat;
use crate::lines::line_starts;
use crate::lines::marked_prefix;
use crate::lines::pending_after;
use vstd::prelude::*;

verus! {

/// Whether a chunk carries no inserted text.
pub open spec fn bare(chunk: ChunkView) -> bool {
    chunk.intro.len() == 0 && chunk.outro.len() == 0
}

/// Whether `marks` rise and lie in `start..end`.
pub open spec fn rising_within(marks: Seq<int>, start: int, end: int) -> bool {
    &&& forall|i: int| 0 <= i < marks.len() ==> start <= #[trigger] marks[i] < end
    &&& forall|i: int, j: int| 0 <= i < j < marks.len() ==> #[trigger] marks[i] < #[trigger] marks[j]
}

/// The shape of an unedited bare chunk once the indent has been inserted at
/// `marks`: the last piece is unedited, starts at the last mark and ends
/// where the chunk ends; the pieces before it end at or before that mark;
/// and what is rendered in front of the source text of the last piece is the
/// source up to the last mark with the indent put in at each mark.
pub open spec fn marked_shape(
    pieces: Seq<ChunkView>,
    source: Seq<u8>,
    start: int,
    end: int,
    marks: Seq<int>,
    indent: Seq<u8>,
) -> bool {
    &&& pieces.len() > 0
    &&& pieces.last().start == last_mark(start, marks)
    &&& pieces.last().end == end
    &&& pieces.last().edited is None
    &&& pieces.last().outro.len() == 0
    &&& forall|i: int|
        0 <= i < pieces.len() - 1 ==> (#[trigger] pieces[i]).start < pieces[i].end <= last_mark(
            start,
            marks,
        )
    &&& render_chunks(pieces.drop_last(), source) + joined(pieces.last().intro) == marked_prefix(
        source,
        start,
        marks,
        indent,
    )
}

/// An unedited bare chunk keeps the shape of [`marked_shape`] under the
/// insertion of the indent at rising offsets of its span.
pub proof fn lemma_marked_shape(
    chunk: ChunkView,
    source: Seq<u8>,
    marks: Seq<int>,
    indent: Seq<u8>,
)
    requires
        bare(chunk),
        chunk.edited is None,
        0 <= chunk.start <= chunk.end <= source.len(),
        rising_within(marks, chunk.start, chunk.end),
    ensures
        marked_shape(
            mark_lines(seq![chunk], marks, indent),
            source,
            chunk.start,
            chunk.end,
            marks,
            indent,
        ),
    decreases marks.len(),
{
    let start = chunk.start;
    let end = chunk.end;
    if marks.len() == 0 {
        assert(seq![chunk].drop_last() =~= Seq::<ChunkView>::empty());
        assert(chunk.intro =~= Seq::<Seq<u8>>::empty());
        assert(render_chunks(seq![chunk].drop_last(), source) + joined(chunk.intro)
            =~= Seq::<u8>::empty());
    } else {
        let before = marks.drop_last();
        let at = marks.last();
        let was = mark_lines(seq![chunk], before, indent);
        let now = mark_lines(seq![chunk], marks, indent);
        assert(rising_within(before, start, end)) by {
            assert forall|i: int| 0 <= i < before.len() implies start <= #[trigger] before[i]
                < end by {
                assert(before[i] == marks[i]);
            }
            assert forall|i: int, j: int| 0 <= i < j < before.len() implies #[trigger] before[i]
                < #[trigger] before[j] by {
                assert(before[i] == marks[i] && before[j] == marks[j]);
            }
        }
        lemma_marked_shape(chunk, source, before, indent);
        let from = last_mark(start, before);
        assert(from <= at) by {
            if before.len() > 0 {
                assert(before.last() == marks[before.len() - 1]);
                assert(marks[before.len() - 1] < marks[marks.len() - 1]);
            }
        }
        let head = was.drop_last();
        let tail = was.last();
        assert(was =~= head + seq![tail]);
        assert forall|i: int| 0 <= i < head.len() implies !(#[trigger] head[i]).divided_at(at) by {
            assert(head[i] == was[i]);
        }
        lemma_split_chunks_concat(head, seq![tail], at);
        lemma_split_chunks_undivided(head, at);
        crate::laws::lemma_split_few(tail, tail, at);
        let cut = split_chunks(was, at);
        assert(cut == head + tail.split(at));
        if from < at {
            let left = tail.left_of(at);
            let right = tail.right_of(at);
            assert(tail.split(at) =~= seq![left, right]);
            assert(now =~= head + seq![left, right.prepend_intro(indent)]) by {
                assert forall|i: int| 0 <= i < head.len() implies (#[trigger] head[i]).start
                    != at by {
                    assert(head[i] == was[i]);
                }
            }
            assert(now.drop_last() =~= head + seq![left]);
            lemma_render_chunks_concat(head, seq![left], source);
            lemma_render_one(left, source);
            assert(joined(left.outro) =~= Seq::<u8>::empty());
            assert(joined(right.prepend_intro(indent).intro) =~= indent) by {
                reveal_with_fuel(joined, 2);
                assert(right.prepend_intro(indent).intro =~= seq![indent]);
                assert(seq![indent].drop_last() =~= Seq::<Seq<u8>>::empty());
            }
            assert(render_chunks(now.drop_last(), source) + joined(now.last().intro)
                =~= marked_prefix(source, start, before, indent) + source.subrange(from, at)
                + indent);
            assert forall|i: int| 0 <= i < now.len() - 1 implies (#[trigger] now[i]).start
                < now[i].end <= at by {
                if i < head.len() {
                    assert(now[i] == was[i]);
                }
            }
        } else {
            assert(before.len() == 0);
            assert(was =~= seq![chunk]);
            assert(tail.split(at) =~= seq![tail]);
            assert(now =~= seq![chunk.prepend_intro(indent)]);
            assert(now.drop_last() =~= Seq::<ChunkView>::empty());
            assert(joined(chunk.prepend_intro(indent).intro) =~= indent) by {
                reveal_with_fuel(joined, 2);
                assert(chunk.prepend_intro(indent).intro =~= seq![indent]);
                assert(seq![indent].drop_last() =~= Seq::<Seq<u8>>::empty());
            }
            assert(source.subrange(from, at) =~= Seq::<u8>::empty());
            assert(render_chunks(now.drop_last(), source) + joined(now.last().intro)
                =~= marked_prefix(source, start, before, indent) + source.subrange(from, at)
                + indent);
        }
    }
}

/// A bare chunk, once indented, renders to its indented content.
pub proof fn lemma_indented_chunk_renders(
    chunk: ChunkView,
    source: Seq<u8>,
    indent: Seq<u8>,
    pending: bool,
)
    requires
        bare(chunk),
        0 <= chunk.start <= chunk.end <= source.len(),
    ensures
        render_chunks(chunk.indented(source, indent, pending), source) == indented(
            chunk.content(source),
            indent,
            pending,
        ),
{
    assert(joined(chunk.intro) =~= Seq::<u8>::empty());
    assert(joined(chunk.outro) =~= Seq::<u8>::empty());
    match chunk.edited {
        Some(text) => {
            let now = chunk.with_content(indented(text, indent, pending));
            lemma_render_one(now, source);
            assert(now.rendered(source) =~= indented(text, indent, pending));
        },
        None => {
            let marks = line_starts(source, chunk.start, chunk.end, pending);
            assert(rising_within(marks, chunk.start, chunk.end)) by {
                assert forall|i: int| 0 <= i < marks.len() implies chunk.start
                    <= #[trigger] marks[i] < chunk.end by {
                    lemma_line_starts_within(source, chunk.start, chunk.end, pending, i);
                }
                assert forall|i: int, j: int| 0 <= i < j < marks.len() implies #[trigger] marks[i]
                    < #[trigger] marks[j] by {
                    lemma_line_starts_rising(source, chunk.start, chunk.end, pending, i, j);
                }
            }
            lemma_marked_shape(chunk, source, marks, indent);
            lemma_indented_span(source, chunk.start, chunk.end, indent, pending);
            let pieces = mark_lines(seq![chunk], marks, indent);
            assert(pieces =~= pieces.drop_last() + seq![pieces.last()]);
            lemma_render_chunks_concat(pieces.drop_last(), seq![pieces.last()], source);
            lemma_render_one(pieces.last(), source);
            assert(joined(pieces.last().outro) =~= Seq::<u8>::empty());
            assert(render_chunks(pieces, source) =~= (render_chunks(pieces.drop_last(), source)
                + joined(pieces.last().intro)) + source.subrange(
                last_mark(chunk.start, marks),
                chunk.end,
            ));
        },
    }
}

/// Bare chunks render to their contents.
pub proof fn lemma_bare_chunks_render_contents(chunks: Seq<ChunkView>, source: Seq<u8>)
    requires
        forall|i: int| 0 <= i < chunks.len() ==> bare(#[trigger] chunks[i]),
    ensures
        render_chunks(chunks, source) == contents(chunks, source),
    decreases chunks.len(),
{
    if chunks.len() > 0 {
        lemma_bare_chunks_render_contents(chunks.drop_last(), source);
        let last = chunks.last();
        assert(joined(last.intro) =~= Seq::<u8>::empty());
        assert(joined(last.outro) =~= Seq::<u8>::empty());
        assert(last.rendered(source) =~= last.content(source));
    }
}

/// Bare chunks, once indented, render to their indented contents.
pub proof fn lemma_indented_chunks_render(
    chunks: Seq<ChunkView>,
    source: Seq<u8>,
    indent: Seq<u8>,
    pending: bool,
)
    requires
        forall|i: int|
            0 <= i < chunks.len() ==> bare(#[trigger] chunks[i]) && 0 <= chunks[i].start
                <= chunks[i].end <= source.len(),
    ensures
        render_chunks(indent_chunks(chunks, source, indent, pending), source) == indented(
            contents(chunks, source),
            indent,
            pending,
        ),
    decreases chunks.len(),
{
    if chunks.len() > 0 {
        let head = chunks.drop_last();
        let last = chunks.last();
        let reached = pending_after(contents(head, source), pending);
        lemma_indented_chunks_render(head, source, indent, pending);
        lemma_indented_chunk_renders(last, source, indent, reached);
        lemma_render_chunks_concat(
            indent_chunks(head, source, indent, pending),
            last.indented(source, indent, reached),
            source,
        );
        lemma_indented_concat(contents(head, source), last.content(source), indent, pending);
    }
}

/// Indented texts join to the indented join of the texts.
pub proof fn lemma_indented_texts_join(parts: Seq<Seq<u8>>, indent: Seq<u8>, pending: bool)
    ensures
        joined(indent_texts(parts, indent, pending)) == indented(joined(parts), indent, pending),
    decreases parts.len(),
{
    if parts.len() > 0 {
        let head = parts.drop_last();
        lemma_indented_texts_join(head, indent, pending);
        lemma_indented_concat(joined(head), parts.last(), indent, pending);
        let now = indent_texts(parts, indent, pending);
        assert(now.drop_last() =~= indent_texts(head, indent, pending));
    }
}

/// Indentation prefixes every line of the output: where no text has been
/// inserted at single chunks, the output of the indented document is the
/// output of the document with the indent put in front of every byte that
/// begins a line, for a cursor that starts pending.
pub proof fn lemma_indented_renders(doc: Document, indent: Seq<u8>)
    requires
        doc.is_partition(),
        forall|i: int| 0 <= i < doc.chunks.len() ==> bare(#[trigger] doc.chunks[i]),
    ensures
        doc.indented(indent).rendered() == indented(doc.rendered(), indent, true),
{
    if indent.len() == 0 {
        assert(indent =~= Seq::<u8>::empty());
        lemma_indented_by_nothing(doc.rendered(), true);
    } else {
        let before = joined(doc.intro);
        let middle = contents(doc.chunks, doc.source);
        let after = joined(doc.outro);
        assert forall|i: int| 0 <= i < doc.chunks.len() implies bare(#[trigger] doc.chunks[i])
            && 0 <= doc.chunks[i].start <= doc.chunks[i].end <= doc.source.len() by {
            doc.lemma_spans_in_source(i);
        }
        lemma_bare_chunks_render_contents(doc.chunks, doc.source);
        lemma_indented_texts_join(doc.intro, indent, true);
        lemma_indented_chunks_render(doc.chunks, doc.source, indent, doc.pending_at_chunks());
        lemma_pending_after_concat(before, middle, true);
        lemma_indented_texts_join(doc.outro, indent, doc.pending_at_outro());
        lemma_indented_concat(before + middle, after, indent, true);
        lemma_indented_concat(before, middle, indent, true);
    }
}

} // verus!
