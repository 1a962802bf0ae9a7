//! The mathematical model of the engine: a source text, the chunks that
//! partition it in order, and the text they render to.
use crate::error::UsageError;
use vstd::prelude::*;

verus! {

/// The concatenation of `parts`.
pub open spec fn joined(parts: Seq<Seq<u8>>) -> Seq<u8>
    decreases parts.len(),
{
    if parts.len() == 0 {
        Seq::empty()
    } else {
        joined(parts.drop_last()) + parts.last()
    }
}

/// A chunk: the span `start..end` of the source, the text that replaces it
/// if it has been edited, and the texts inserted before and after it.
pub struct ChunkView {
    pub start: int,
    pub end: int,
    pub intro: Seq<Seq<u8>>,
    pub outro: Seq<Seq<u8>>,
    pub edited: Option<Seq<u8>>,
    pub keep_original: bool,
}

impl ChunkView {
    /// The untouched chunk that spans `start..end`.
    pub open spec fn fresh(start: int, end: int) -> ChunkView {
        ChunkView {
            start,
            end,
            intro: Seq::empty(),
            outro: Seq::empty(),
            edited: None,
            keep_original: false,
        }
    }

    /// Whether `offset` lies strictly inside the span.
    pub open spec fn contains(self, offset: int) -> bool {
        self.start < offset < self.end
    }

    /// The text that the chunk stands for: its replacement if it has one,
    /// else its span of the source.
    pub open spec fn content(self, source: Seq<u8>) -> Seq<u8> {
        match self.edited {
            Some(text) => text,
            None => source.subrange(self.start, self.end),
        }
    }

    /// The chunk's part of the output.
    pub open spec fn rendered(self, source: Seq<u8>) -> Seq<u8> {
        joined(self.intro) + self.content(source) + joined(self.outro)
    }

    /// The chunk with its content replaced by `content`. With `overwrite` the
    /// texts inserted before and after it are dropped.
    pub open spec fn edit(self, content: Seq<u8>, overwrite: bool, store_name: bool) -> ChunkView {
        ChunkView {
            start: self.start,
            end: self.end,
            intro: if overwrite {
                Seq::empty()
            } else {
                self.intro
            },
            outro: if overwrite {
                Seq::empty()
            } else {
                self.outro
            },
            edited: Some(content),
            keep_original: store_name,
        }
    }

    /// The left half of the chunk split at `offset`: it keeps what was
    /// inserted before the chunk.
    pub open spec fn left_of(self, offset: int) -> ChunkView {
        ChunkView {
            start: self.start,
            end: offset,
            intro: self.intro,
            outro: Seq::empty(),
            edited: self.edited,
            keep_original: self.keep_original,
        }
    }

    /// The right half of the chunk split at `offset`: it takes what was
    /// inserted after the chunk.
    pub open spec fn right_of(self, offset: int) -> ChunkView {
        ChunkView {
            start: offset,
            end: self.end,
            intro: Seq::empty(),
            outro: self.outro,
            edited: None,
            keep_original: false,
        }
    }

    /// Whether the chunk is divided by a split at `offset`.
    pub open spec fn divided_at(self, offset: int) -> bool {
        self.contains(offset) && self.edited is None
    }

    /// What a split at `offset` leaves of the chunk: its two halves if the
    /// offset lies strictly inside it and it is unedited, else the chunk.
    pub open spec fn split(self, offset: int) -> Seq<ChunkView> {
        if self.divided_at(offset) {
            seq![self.left_of(offset), self.right_of(offset)]
        } else {
            seq![self]
        }
    }

    /// What the replacement of `start..end` by `content` makes of the chunk,
    /// once boundaries lie at both ends of the range. The chunk that starts
    /// at `start` takes the content. The chunks after it that end before
    /// `end` become empty; the chunk that ends at `end`, if it is another
    /// than the first, is left as it is, and so are all chunks outside the
    /// range.
    pub open spec fn replaced(
        self,
        start: int,
        end: int,
        content: Seq<u8>,
        overwrite: bool,
        store_name: bool,
    ) -> ChunkView {
        if self.start == start {
            self.edit(content, overwrite, store_name)
        } else if start < self.start && self.end < end {
            self.edit(Seq::empty(), false, false)
        } else {
            self
        }
    }

    /// The chunk with `text` inserted in front of what stands before it.
    pub open spec fn prepend_intro(self, text: Seq<u8>) -> ChunkView {
        ChunkView {
            start: self.start,
            end: self.end,
            intro: seq![text] + self.intro,
            outro: self.outro,
            edited: self.edited,
            keep_original: self.keep_original,
        }
    }

    /// The chunk with `text` added behind what stands after it.
    pub open spec fn append_outro(self, text: Seq<u8>) -> ChunkView {
        ChunkView {
            start: self.start,
            end: self.end,
            intro: self.intro,
            outro: self.outro.push(text),
            edited: self.edited,
            keep_original: self.keep_original,
        }
    }
}

/// `chunks` with `text` put in front of the chunk that starts at `offset`.
pub open spec fn prepend_intro_at(chunks: Seq<ChunkView>, offset: int, text: Seq<u8>) -> Seq<
    ChunkView,
> {
    chunks.map_values(
        |c: ChunkView|
            if c.start == offset {
                c.prepend_intro(text)
            } else {
                c
            },
    )
}

/// `chunks` with `text` put behind the chunk that ends at `offset`.
pub open spec fn append_outro_at(chunks: Seq<ChunkView>, offset: int, text: Seq<u8>) -> Seq<
    ChunkView,
> {
    chunks.map_values(
        |c: ChunkView|
            if c.end == offset {
                c.append_outro(text)
            } else {
                c
            },
    )
}

/// What the replacement of `start..end` by `content` makes of each chunk.
pub open spec fn replacing(
    start: int,
    end: int,
    content: Seq<u8>,
    overwrite: bool,
    store_name: bool,
) -> spec_fn(ChunkView) -> ChunkView {
    |c: ChunkView| c.replaced(start, end, content, overwrite, store_name)
}

/// The output of `chunks` in order.
pub open spec fn render_chunks(chunks: Seq<ChunkView>, source: Seq<u8>) -> Seq<u8>
    decreases chunks.len(),
{
    if chunks.len() == 0 {
        Seq::empty()
    } else {
        render_chunks(chunks.drop_last(), source) + chunks.last().rendered(source)
    }
}

/// `chunks` with every chunk split at `offset`.
pub open spec fn split_chunks(chunks: Seq<ChunkView>, offset: int) -> Seq<ChunkView>
    decreases chunks.len(),
{
    if chunks.len() == 0 {
        Seq::empty()
    } else {
        split_chunks(chunks.drop_last(), offset) + chunks.last().split(offset)
    }
}

/// The state of the engine.
pub struct Document {
    /// The text that is edited. It never changes.
    pub source: Seq<u8>,
    /// Texts that stand before the whole output.
    pub intro: Seq<Seq<u8>>,
    /// Texts that stand after the whole output.
    pub outro: Seq<Seq<u8>>,
    /// The chunks in the order of the source.
    pub chunks: Seq<ChunkView>,
}

impl Document {
    /// The document of a new engine: one untouched chunk over all of `source`.
    pub open spec fn initial(source: Seq<u8>) -> Document {
        Document {
            source,
            intro: Seq::empty(),
            outro: Seq::empty(),
            chunks: seq![ChunkView::fresh(0, source.len() as int)],
        }
    }

    /// The edited text.
    pub open spec fn rendered(self) -> Seq<u8> {
        joined(self.intro) + render_chunks(self.chunks, self.source) + joined(self.outro)
    }

    /// The spans of the chunks, in order, cover the source from its first
    /// byte to its last without gap or overlap. No span is empty, except the
    /// single span of an empty source.
    pub open spec fn is_partition(self) -> bool {
        &&& self.chunks.len() > 0
        &&& self.chunks[0].start == 0
        &&& self.chunks.last().end == self.source.len()
        &&& forall|i: int, j: int|
            0 <= i && j == i + 1 && j < self.chunks.len() ==> (#[trigger] self.chunks[i]).end == (
            #[trigger] self.chunks[j]).start
        &&& if self.source.len() == 0 {
            self.chunks.len() == 1
        } else {
            forall|i: int|
                0 <= i < self.chunks.len() ==> (#[trigger] self.chunks[i]).start
                    < self.chunks[i].end
        }
    }

    /// Whether some chunk starts or ends at `offset`.
    pub open spec fn has_boundary(self, offset: int) -> bool {
        exists|i: int|
            0 <= i < self.chunks.len() && ((#[trigger] self.chunks[i]).start == offset
                || self.chunks[i].end == offset)
    }

    /// Whether some edited chunk holds `offset` strictly inside its span.
    pub open spec fn inside_edited(self, offset: int) -> bool {
        exists|i: int|
            0 <= i < self.chunks.len() && (#[trigger] self.chunks[i]).contains(offset)
                && self.chunks[i].edited is Some
    }

    /// Whether a boundary can be made at `offset`: it lies within the source
    /// and not strictly inside an edited chunk.
    pub open spec fn splittable(self, offset: int) -> bool {
        0 <= offset <= self.source.len() && !self.inside_edited(offset)
    }

    /// The document after a split at `offset`: the unedited chunk that holds
    /// the offset strictly inside its span is divided in two. Where there is
    /// no such chunk, nothing changes.
    pub open spec fn split(self, offset: int) -> Document {
        Document {
            source: self.source,
            intro: self.intro,
            outro: self.outro,
            chunks: split_chunks(self.chunks, offset),
        }
    }

    /// Whether some chunk starts at `offset`. In a partition that is every
    /// offset of the source but its end, and offset 0 of an empty source.
    pub open spec fn starts_chunk(self, offset: int) -> bool {
        0 <= offset < self.source.len() || (offset == 0 && self.source.len() == 0)
    }

    /// Whether some chunk ends at `offset`. In a partition that is every
    /// offset of the source but 0, and offset 0 of an empty source.
    pub open spec fn ends_chunk(self, offset: int) -> bool {
        0 < offset <= self.source.len() || (offset == 0 && self.source.len() == 0)
    }

    /// The document with `text` inserted at `offset`, in front of what
    /// follows: a boundary is made there, and the text is put before all
    /// that stands in front of the chunk that starts there. At the end of
    /// the source, where no chunk starts, it is put before all that stands
    /// after the whole output.
    pub open spec fn prepend_right(self, offset: int, text: Seq<u8>) -> Document {
        Document {
            source: self.source,
            intro: self.intro,
            outro: if self.starts_chunk(offset) {
                self.outro
            } else {
                seq![text] + self.outro
            },
            chunks: prepend_intro_at(split_chunks(self.chunks, offset), offset, text),
        }
    }

    /// The document with `text` inserted at `offset`, behind what precedes:
    /// a boundary is made there, and the text is put after all that stands
    /// behind the chunk that ends there. At the start of the source, where
    /// no chunk ends, it is put after all that stands before the whole
    /// output.
    pub open spec fn append_left(self, offset: int, text: Seq<u8>) -> Document {
        Document {
            source: self.source,
            intro: if self.ends_chunk(offset) {
                self.intro
            } else {
                self.intro.push(text)
            },
            outro: self.outro,
            chunks: append_outro_at(split_chunks(self.chunks, offset), offset, text),
        }
    }

    /// The document with `text` put before the whole output.
    pub open spec fn prepend(self, text: Seq<u8>) -> Document {
        Document {
            source: self.source,
            intro: seq![text] + self.intro,
            outro: self.outro,
            chunks: self.chunks,
        }
    }

    /// The document with `text` put after the whole output.
    pub open spec fn append(self, text: Seq<u8>) -> Document {
        Document {
            source: self.source,
            intro: self.intro,
            outro: self.outro.push(text),
            chunks: self.chunks,
        }
    }

    /// In a partition with a boundary at `offset`, a chunk starts there
    /// unless it is the end of the source, and a chunk ends there unless it
    /// is the start.
    pub proof fn lemma_boundary_sides(self, offset: int)
        requires
            self.is_partition(),
            self.has_boundary(offset),
        ensures
            0 <= offset <= self.source.len(),
            self.starts_chunk(offset) <==> exists|i: int|
                0 <= i < self.chunks.len() && (#[trigger] self.chunks[i]).start == offset,
            self.ends_chunk(offset) <==> exists|i: int|
                0 <= i < self.chunks.len() && (#[trigger] self.chunks[i]).end == offset,
    {
        let n = self.chunks.len() as int;
        let i = choose|i: int|
            0 <= i < self.chunks.len() && ((#[trigger] self.chunks[i]).start == offset
                || self.chunks[i].end == offset);
        if 0 < i {
            self.lemma_ordered(0, i);
        }
        if i < n - 1 {
            self.lemma_ordered(i, n - 1);
            assert(self.chunks[i].end == self.chunks[i + 1].start);
        }
        if 0 < i {
            assert(self.chunks[i - 1].end == self.chunks[i].start);
        }
        assert forall|j: int| 0 <= j < n implies 0 <= (#[trigger] self.chunks[j]).start
            && self.chunks[j].end <= self.source.len() by {
            if 0 < j {
                self.lemma_ordered(0, j);
            }
            if j < n - 1 {
                self.lemma_ordered(j, n - 1);
            }
        }
    }

    /// Why a replacement of `start..end` is refused, if it is: the range is
    /// inverted, it is empty where `reject_empty` forbids that, it reaches
    /// behind the source, or one of its ends lies strictly inside an edited
    /// chunk.
    pub open spec fn range_error(self, start: int, end: int, reject_empty: bool) -> Option<
        UsageError,
    > {
        if start > end {
            Some(UsageError::InvertedRange)
        } else if start == end && reject_empty {
            Some(UsageError::EmptyRange)
        } else if end > self.source.len() {
            Some(UsageError::OutOfBounds)
        } else if start < end && (self.inside_edited(start) || self.inside_edited(end)) {
            Some(UsageError::EditedChunk)
        } else {
            None
        }
    }

    /// The document with the range `start..end` replaced by `content`:
    /// boundaries are made at both ends, and every chunk is replaced as
    /// [`ChunkView::replaced`] says.
    pub open spec fn replace(
        self,
        start: int,
        end: int,
        content: Seq<u8>,
        overwrite: bool,
        store_name: bool,
    ) -> Document {
        Document {
            source: self.source,
            intro: self.intro,
            outro: self.outro,
            chunks: split_chunks(split_chunks(self.chunks, start), end).map_values(
                replacing(start, end, content, overwrite, store_name),
            ),
        }
    }

    /// In a partition with a chunk at `first` that starts at `start` and a
    /// chunk at `last` that ends at `end`, a replacement of `start..end`
    /// edits the first, empties those strictly between the two, and leaves
    /// the rest.
    pub proof fn lemma_replaced_between(
        self,
        first: int,
        last: int,
        start: int,
        end: int,
        content: Seq<u8>,
        overwrite: bool,
        store_name: bool,
        i: int,
    )
        requires
            self.is_partition(),
            0 <= first <= last < self.chunks.len(),
            self.chunks[first].start == start,
            self.chunks[last].end == end,
            0 <= i < self.chunks.len(),
        ensures
            self.chunks[i].replaced(start, end, content, overwrite, store_name) == (if i == first {
                self.chunks[i].edit(content, overwrite, store_name)
            } else if first < i < last {
                self.chunks[i].edit(Seq::empty(), false, false)
            } else {
                self.chunks[i]
            }),
    {
        if i < first {
            self.lemma_ordered(i, first);
        }
        if first < i {
            self.lemma_ordered(first, i);
        }
        if i < last {
            self.lemma_ordered(i, last);
        }
        if last < i {
            self.lemma_ordered(last, i);
        }
    }

    /// Where boundaries can be made at both ends of a range, making them
    /// one after the other leaves a partition with boundaries at both.
    pub proof fn lemma_replace_cuts(self, start: int, end: int)
        requires
            self.is_partition(),
            self.splittable(start),
            self.splittable(end),
        ensures
            self.split(start).is_partition(),
            self.split(start).splittable(end),
            self.split(start).split(end).is_partition(),
            self.split(start).split(end).has_boundary(start),
            self.split(start).split(end).has_boundary(end),
    {
        self.lemma_split_boundary(start);
        self.lemma_split_keeps_splittable(start, end);
        self.split(start).lemma_split_boundary(end);
        self.split(start).lemma_split_keeps_boundary(end, start);
    }

    /// The chunks in which the chunk at `first` has taken `content` and those
    /// strictly between `first` and `last` are empty are the chunks that the
    /// replacement of `start..end` leaves, where the chunk at `first` starts at
    /// `start` and the chunk at `last` ends at `end`.
    pub proof fn lemma_replaced_chunks(
        self,
        now: Seq<ChunkView>,
        first: int,
        last: int,
        start: int,
        end: int,
        content: Seq<u8>,
        overwrite: bool,
        store_name: bool,
    )
        requires
            self.is_partition(),
            0 <= first <= last < self.chunks.len(),
            self.chunks[first].start == start,
            self.chunks[last].end == end,
            now.len() == self.chunks.len(),
            forall|i: int|
                0 <= i < now.len() ==> #[trigger] now[i] == (if i == first {
                    self.chunks[i].edit(content, overwrite, store_name)
                } else if first < i < last {
                    self.chunks[i].edit(Seq::empty(), false, false)
                } else {
                    self.chunks[i]
                }),
        ensures
            now == self.chunks.map_values(replacing(start, end, content, overwrite, store_name)),
    {
        let wanted = self.chunks.map_values(replacing(start, end, content, overwrite, store_name));
        assert forall|i: int| 0 <= i < self.chunks.len() implies now[i] == wanted[i] by {
            self.lemma_replaced_between(
                first,
                last,
                start,
                end,
                content,
                overwrite,
                store_name,
                i,
            );
        }
        assert(now =~= wanted);
    }

    /// A split makes no edited chunk: whatever can be split before it can be
    /// split after it.
    pub proof fn lemma_split_keeps_splittable(self, at: int, offset: int)
        requires
            self.splittable(offset),
        ensures
            self.split(at).splittable(offset),
    {
        if self.split(at).inside_edited(offset) {
            let cut = self.split(at).chunks;
            let i = choose|i: int|
                0 <= i < cut.len() && (#[trigger] cut[i]).contains(offset) && cut[i].edited is Some;
            let j = lemma_split_chunks_origin(self.chunks, at, i);
            assert(self.chunks[j].contains(offset) && self.chunks[j].edited is Some);
        }
    }

    /// Whether `other` has the same source and the same spans in the same
    /// order.
    pub open spec fn same_spans(self, other: Document) -> bool {
        &&& self.source == other.source
        &&& self.chunks.len() == other.chunks.len()
        &&& forall|i: int|
            0 <= i < self.chunks.len() ==> (#[trigger] self.chunks[i]).start
                == other.chunks[i].start && self.chunks[i].end == other.chunks[i].end
    }

    /// A document with the spans of a partition is a partition.
    pub proof fn lemma_same_spans_partition(self, other: Document)
        requires
            self.is_partition(),
            self.same_spans(other),
        ensures
            other.is_partition(),
    {
        assert forall|i: int, j: int|
            0 <= i && j == i + 1 && j < other.chunks.len() implies (#[trigger] other.chunks[i]).end
            == (#[trigger] other.chunks[j]).start by {
            assert(self.chunks[i].end == self.chunks[j].start);
        }
        if self.source.len() != 0 {
            assert forall|i: int| 0 <= i < other.chunks.len() implies (
            #[trigger] other.chunks[i]).start < other.chunks[i].end by {
                assert(self.chunks[i].start < self.chunks[i].end);
            }
        }
    }

    /// In a partition no two chunks start at the same offset, and no two
    /// end at the same offset.
    pub proof fn lemma_distinct_boundaries(self, i: int, j: int)
        requires
            self.is_partition(),
            0 <= i < self.chunks.len(),
            0 <= j < self.chunks.len(),
            i != j,
        ensures
            self.chunks[i].start != self.chunks[j].start,
            self.chunks[i].end != self.chunks[j].end,
    {
        if i < j {
            self.lemma_ordered(i, j);
        } else {
            self.lemma_ordered(j, i);
        }
    }

    /// After a split at an offset where a boundary can be made, the chunks
    /// still partition the source and a boundary lies at the offset. Where
    /// one lay there before, the split has changed nothing.
    pub proof fn lemma_split_boundary(self, offset: int)
        requires
            self.is_partition(),
            self.splittable(offset),
        ensures
            self.split(offset).is_partition(),
            self.split(offset).has_boundary(offset),
            self.has_boundary(offset) ==> self.split(offset) == self,
    {
        self.lemma_boundary_or_inside(offset);
        if self.has_boundary(offset) {
            lemma_split_chunks_undivided(self.chunks, offset);
        } else {
            let at = choose|i: int|
                0 <= i < self.chunks.len() && (#[trigger] self.chunks[i]).contains(offset);
            assert(!self.inside_edited(offset));
            self.lemma_split_inside(offset, at);
            assert(self.split(offset).chunks[at].end == offset);
        }
    }

    /// A boundary stays a boundary when the document is split elsewhere.
    pub proof fn lemma_split_keeps_boundary(self, at: int, offset: int)
        requires
            self.is_partition(),
            self.splittable(at),
            self.has_boundary(offset),
        ensures
            self.split(at).has_boundary(offset),
    {
        self.lemma_boundary_or_inside(at);
        if self.has_boundary(at) {
            lemma_split_chunks_undivided(self.chunks, at);
        } else {
            let k = choose|i: int|
                0 <= i < self.chunks.len() && (#[trigger] self.chunks[i]).contains(at);
            assert(!self.inside_edited(at));
            self.lemma_split_inside(at, k);
            let cut = self.split(at).chunks;
            let i = choose|i: int|
                0 <= i < self.chunks.len() && ((#[trigger] self.chunks[i]).start == offset
                    || self.chunks[i].end == offset);
            if i < k {
                assert(cut[i] == self.chunks[i]);
            } else if i > k {
                assert(cut[i + 1] == self.chunks[i]);
            } else {
                assert(cut[k].start == self.chunks[k].start);
                assert(cut[k + 1].end == self.chunks[k].end);
            }
        }
    }

    /// In a partition every span lies within the source.
    pub proof fn lemma_spans_in_source(self, i: int)
        requires
            self.is_partition(),
            0 <= i < self.chunks.len(),
        ensures
            0 <= self.chunks[i].start <= self.chunks[i].end <= self.source.len(),
    {
        if 0 < i {
            self.lemma_ordered(0, i);
        }
        if i < self.chunks.len() - 1 {
            self.lemma_ordered(i, self.chunks.len() - 1);
        }
    }

    /// In a partition every chunk ends where the next starts, so a chunk
    /// ends at or before the start of any later one.
    pub proof fn lemma_ordered(self, i: int, j: int)
        requires
            self.is_partition(),
            0 <= i < j < self.chunks.len(),
        ensures
            self.chunks[i].start < self.chunks[i].end <= self.chunks[j].start < self.chunks[j].end,
        decreases j - i,
    {
        if i + 1 < j {
            self.lemma_ordered(i + 1, j);
        }
        assert(self.chunks[i].end == self.chunks[i + 1].start);
    }

    /// In a partition every offset of the source is a boundary or lies
    /// strictly inside exactly one chunk.
    pub proof fn lemma_boundary_or_inside(self, offset: int)
        requires
            self.is_partition(),
            0 <= offset <= self.source.len(),
        ensures
            self.has_boundary(offset) != (exists|i: int|
                0 <= i < self.chunks.len() && (#[trigger] self.chunks[i]).contains(offset)),
            forall|i: int, j: int|
                0 <= i < self.chunks.len() && 0 <= j < self.chunks.len()
                    && (#[trigger] self.chunks[i]).contains(offset)
                    && (#[trigger] self.chunks[j]).contains(offset) ==> i == j,
    {
        assert forall|i: int, j: int|
            0 <= i < self.chunks.len() && 0 <= j < self.chunks.len()
                && (#[trigger] self.chunks[i]).contains(offset)
                && (#[trigger] self.chunks[j]).contains(offset) implies i == j by {
            if i < j {
                self.lemma_ordered(i, j);
            } else if j < i {
                self.lemma_ordered(j, i);
            }
        }
        assert forall|i: int, j: int|
            0 <= i < self.chunks.len() && 0 <= j < self.chunks.len()
                && (#[trigger] self.chunks[i]).contains(offset) implies (#[trigger] self.chunks[j]).start
                != offset && self.chunks[j].end != offset by {
            if i < j {
                self.lemma_ordered(i, j);
            } else if j < i {
                self.lemma_ordered(j, i);
            }
        }
        if !self.has_boundary(offset) {
            self.lemma_find(offset, 0);
        }
    }

    /// A split strictly inside the unedited chunk at `at` of a partition
    /// puts the two halves in its place, and leaves a partition.
    pub proof fn lemma_split_inside(self, offset: int, at: int)
        requires
            self.is_partition(),
            0 <= at < self.chunks.len(),
            self.chunks[at].divided_at(offset),
        ensures
            self.split(offset).chunks == self.chunks.update(
                at,
                self.chunks[at].left_of(offset),
            ).insert(at + 1, self.chunks[at].right_of(offset)),
            self.split(offset).is_partition(),
    {
        if 0 < at {
            self.lemma_ordered(0, at);
        }
        if at < self.chunks.len() - 1 {
            self.lemma_ordered(at, self.chunks.len() - 1);
        }
        self.lemma_boundary_or_inside(offset);
        assert forall|i: int| 0 <= i < self.chunks.len() && i != at implies !(
        #[trigger] self.chunks[i]).divided_at(offset) by {}
        lemma_split_chunks_at(self.chunks, offset, at);
        let was = self.chunks;
        let now = self.split(offset).chunks;
        let n = was.len() as int;
        assert(now.len() == n + 1);
        assert forall|i: int| 0 <= i < at implies now[i] == was[i] by {}
        assert(now[at] == was[at].left_of(offset));
        assert(now[at + 1] == was[at].right_of(offset));
        assert forall|i: int| at + 1 < i < n + 1 implies now[i] == was[i - 1] by {}
        assert(was[at].start < was[at].end);
        assert(self.source.len() > 0);
        assert(now[0].start == 0) by {
            if at > 0 {
                assert(now[0] == was[0]);
            }
        }
        assert(now.last().end == self.source.len()) by {
            if at < n - 1 {
                assert(now[n] == was[n - 1]);
            }
        }
        assert forall|i: int, j: int| 0 <= i && j == i + 1 && j < now.len() implies (
        #[trigger] now[i]).end == (#[trigger] now[j]).start by {
            if i < at {
                assert(now[i] == was[i]);
                assert(was[i].end == was[i + 1].start);
                if i + 1 < at {
                    assert(now[i + 1] == was[i + 1]);
                }
            } else if i > at + 1 {
                assert(now[i] == was[i - 1]);
                assert(now[i + 1] == was[i]);
                assert(was[i - 1].end == was[i].start);
            } else if i == at + 1 {
                assert(now[i + 1] == was[i]);
                assert(was[at].end == was[at + 1].start);
            }
        }
        assert forall|i: int| 0 <= i < now.len() implies (#[trigger] now[i]).start
            < now[i].end by {
            if i < at {
                assert(now[i] == was[i]);
                assert(was[i].start < was[i].end);
            } else if i > at + 1 {
                assert(now[i] == was[i - 1]);
                assert(was[i - 1].start < was[i - 1].end);
            }
        }
    }

    /// Walking the chunks from one that starts before `offset`, with no
    /// boundary at `offset`, reaches a chunk that holds it.
    proof fn lemma_find(self, offset: int, from: int)
        requires
            self.is_partition(),
            0 <= offset <= self.source.len(),
            !self.has_boundary(offset),
            0 <= from < self.chunks.len(),
            self.chunks[from].start <= offset,
        ensures
            exists|i: int| 0 <= i < self.chunks.len() && (#[trigger] self.chunks[i]).contains(offset),
        decreases self.chunks.len() - from,
    {
        let c = self.chunks[from];
        assert(c.start != offset && c.end != offset);
        if offset < c.end {
            assert(c.contains(offset));
        } else {
            if from == self.chunks.len() - 1 {
                assert(c.end == self.source.len());
            } else {
                assert(self.chunks[from].end == self.chunks[from + 1].start);
                self.lemma_find(offset, from + 1);
            }
        }
    }
}

/// Every chunk of a split list is a chunk of the list that the split does
/// not divide, or one half of a chunk that it divides. Returns the place of
/// that chunk in the list.
pub proof fn lemma_split_chunks_origin(chunks: Seq<ChunkView>, offset: int, i: int) -> (j: int)
    requires
        0 <= i < split_chunks(chunks, offset).len(),
    ensures
        0 <= j < chunks.len(),
        if chunks[j].divided_at(offset) {
            split_chunks(chunks, offset)[i] == chunks[j].left_of(offset) || split_chunks(
                chunks,
                offset,
            )[i] == chunks[j].right_of(offset)
        } else {
            split_chunks(chunks, offset)[i] == chunks[j]
        },
    decreases chunks.len(),
{
    let head = split_chunks(chunks.drop_last(), offset);
    if i < head.len() {
        lemma_split_chunks_origin(chunks.drop_last(), offset, i)
    } else {
        chunks.len() - 1
    }
}

/// Splitting distributes over concatenation.
pub proof fn lemma_split_chunks_concat(a: Seq<ChunkView>, b: Seq<ChunkView>, offset: int)
    ensures
        split_chunks(a + b, offset) == split_chunks(a, offset) + split_chunks(b, offset),
    decreases b.len(),
{
    if b.len() == 0 {
        assert(a + b =~= a);
        assert(split_chunks(a, offset) + split_chunks(b, offset) =~= split_chunks(a, offset));
    } else {
        assert((a + b).drop_last() =~= a + b.drop_last());
        lemma_split_chunks_concat(a, b.drop_last(), offset);
        assert((split_chunks(a, offset) + split_chunks(b.drop_last(), offset)) + b.last().split(
            offset,
        ) =~= split_chunks(a, offset) + (split_chunks(b.drop_last(), offset) + b.last().split(
            offset,
        )));
    }
}

/// Chunks of which none is divided at `offset` are left as they are.
pub proof fn lemma_split_chunks_undivided(chunks: Seq<ChunkView>, offset: int)
    requires
        forall|i: int| 0 <= i < chunks.len() ==> !(#[trigger] chunks[i]).divided_at(offset),
    ensures
        split_chunks(chunks, offset) == chunks,
    decreases chunks.len(),
{
    if chunks.len() > 0 {
        lemma_split_chunks_undivided(chunks.drop_last(), offset);
        assert(chunks.drop_last() + seq![chunks.last()] =~= chunks);
    } else {
        assert(chunks =~= Seq::empty());
    }
}

/// Where only the chunk at `at` is divided at `offset`, the split puts its
/// two halves in its place.
pub proof fn lemma_split_chunks_at(chunks: Seq<ChunkView>, offset: int, at: int)
    requires
        0 <= at < chunks.len(),
        chunks[at].divided_at(offset),
        forall|i: int|
            0 <= i < chunks.len() && i != at ==> !(#[trigger] chunks[i]).divided_at(offset),
    ensures
        split_chunks(chunks, offset) == chunks.update(at, chunks[at].left_of(offset)).insert(
            at + 1,
            chunks[at].right_of(offset),
        ),
{
    let before = chunks.take(at);
    let after = chunks.skip(at + 1);
    let one = seq![chunks[at]];
    assert(chunks =~= before + one + after);
    lemma_split_chunks_concat(before + one, after, offset);
    lemma_split_chunks_concat(before, one, offset);
    lemma_split_chunks_undivided(before, offset);
    lemma_split_chunks_undivided(after, offset);
    assert(split_chunks(one, offset) =~= chunks[at].split(offset)) by {
        reveal_with_fuel(split_chunks, 2);
        assert(one.drop_last() =~= Seq::<ChunkView>::empty());
    }
    assert(before + chunks[at].split(offset) + after =~= chunks.update(
        at,
        chunks[at].left_of(offset),
    ).insert(at + 1, chunks[at].right_of(offset)));
}

} // verus!
