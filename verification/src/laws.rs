//! Laws of the engine, stated over its model and proved.
use crate::document::ChunkView;
use crate::document::Document;
use crate::document::joined;
use crate::document::lemma_split_chunks_concat;
use crate::document::lemma_split_chunks_origin;
use crate::document::lemma_split_chunks_undivided;
use crate::document::render_chunks;
use crate::document::replacing;
use crate::document::split_chunks;
use vstd::prelude::*;
use vstd::utf8::decode_utf8;
use vstd::utf8::encode_utf8;
use vstd::utf8::encode_utf8_decode_utf8;
use vstd::utf8::encode_utf8_valid_utf8;
use vstd::utf8::valid_utf8;

verus! {

/// The output of two lists of chunks one after the other is the output of
/// their concatenation.
pub proof fn lemma_render_chunks_concat(a: Seq<ChunkView>, b: Seq<ChunkView>, source: Seq<u8>)
    ensures
        render_chunks(a + b, source) == render_chunks(a, source) + render_chunks(b, source),
    decreases b.len(),
{
    if b.len() == 0 {
        assert(a + b =~= a);
        assert(render_chunks(a, source) + render_chunks(b, source) =~= render_chunks(a, source));
    } else {
        assert((a + b).drop_last() =~= a + b.drop_last());
        lemma_render_chunks_concat(a, b.drop_last(), source);
        assert((render_chunks(a, source) + render_chunks(b.drop_last(), source))
            + b.last().rendered(source) =~= render_chunks(a, source) + (render_chunks(
            b.drop_last(),
            source,
        ) + b.last().rendered(source)));
    }
}

/// The output of a single chunk.
pub proof fn lemma_render_one(chunk: ChunkView, source: Seq<u8>)
    ensures
        render_chunks(seq![chunk], source) == chunk.rendered(source),
{
    reveal_with_fuel(render_chunks, 2);
    assert(seq![chunk].drop_last() =~= Seq::<ChunkView>::empty());
    assert(Seq::<u8>::empty() + chunk.rendered(source) =~= chunk.rendered(source));
}

/// A chunk whose span lies within the source renders to the same text
/// before and after a split.
pub proof fn lemma_split_chunk_renders_same(chunk: ChunkView, source: Seq<u8>, offset: int)
    requires
        0 <= chunk.start <= chunk.end <= source.len(),
    ensures
        render_chunks(chunk.split(offset), source) == chunk.rendered(source),
{
    if chunk.divided_at(offset) {
        let left = chunk.left_of(offset);
        let right = chunk.right_of(offset);
        assert(chunk.split(offset) =~= seq![left] + seq![right]);
        lemma_render_chunks_concat(seq![left], seq![right], source);
        lemma_render_one(left, source);
        lemma_render_one(right, source);
        assert(joined(Seq::<Seq<u8>>::empty()) =~= Seq::<u8>::empty());
        assert(source.subrange(chunk.start, offset) + source.subrange(offset, chunk.end)
            =~= source.subrange(chunk.start, chunk.end));
        assert(left.rendered(source) + right.rendered(source) =~= chunk.rendered(source));
    } else {
        lemma_render_one(chunk, source);
    }
}

/// Chunks whose spans lie within the source render to the same text before
/// and after a split.
pub proof fn lemma_split_chunks_render_same(chunks: Seq<ChunkView>, source: Seq<u8>, offset: int)
    requires
        forall|i: int|
            0 <= i < chunks.len() ==> 0 <= (#[trigger] chunks[i]).start <= chunks[i].end
                <= source.len(),
    ensures
        render_chunks(split_chunks(chunks, offset), source) == render_chunks(chunks, source),
    decreases chunks.len(),
{
    if chunks.len() > 0 {
        lemma_split_chunks_render_same(chunks.drop_last(), source, offset);
        lemma_render_chunks_concat(
            split_chunks(chunks.drop_last(), offset),
            chunks.last().split(offset),
            source,
        );
        lemma_split_chunk_renders_same(chunks.last(), source, offset);
    }
}

/// A new engine renders its source: with no edit the chunks partition the
/// source and the output is the source.
pub proof fn lemma_untouched_renders_source(source: Seq<u8>)
    ensures
        Document::initial(source).is_partition(),
        Document::initial(source).rendered() == source,
{
    let doc = Document::initial(source);
    let chunk = ChunkView::fresh(0, source.len() as int);
    lemma_render_one(chunk, source);
    assert(joined(Seq::<Seq<u8>>::empty()) =~= Seq::<u8>::empty());
    assert(source.subrange(0, source.len() as int) =~= source);
    assert(doc.rendered() =~= source);
}

/// A replacement in a new engine replaces exactly the range: the output is
/// the source before the range, the content, and the source behind the
/// range.
pub proof fn lemma_first_replacement_renders(
    source: Seq<u8>,
    start: int,
    end: int,
    content: Seq<u8>,
    overwrite: bool,
    store_name: bool,
)
    requires
        0 <= start < end <= source.len(),
    ensures
        Document::initial(source).range_error(start, end, true) is None,
        Document::initial(source).replace(start, end, content, overwrite, store_name).rendered()
            == source.subrange(0, start) + content + source.subrange(end, source.len() as int),
{
    let len = source.len() as int;
    let doc = Document::initial(source);
    let whole = ChunkView::fresh(0, len);
    let change = replacing(start, end, content, overwrite, store_name);
    let left = ChunkView::fresh(0, start);
    let mid = ChunkView::fresh(start, end);
    let right = ChunkView::fresh(end, len);
    let rest = ChunkView::fresh(start, len);
    let before = if 0 < start {
        seq![left]
    } else {
        Seq::empty()
    };
    let behind = if end < len {
        seq![right]
    } else {
        Seq::empty()
    };
    lemma_split_few(whole, whole, start);
    lemma_split_few(left, rest, end);
    lemma_split_few(rest, rest, end);
    lemma_split_few(whole, whole, end);
    assert(whole.left_of(start) == left && whole.right_of(start) == rest);
    assert(rest.left_of(end) == mid && rest.right_of(end) == right);
    assert(whole.left_of(end) == mid || start != 0);
    assert(whole.right_of(end) == right);
    let cut = split_chunks(split_chunks(doc.chunks, start), end);
    assert(cut =~= before + seq![mid] + behind);
    let now = doc.replace(start, end, content, overwrite, store_name).chunks;
    let edited = mid.edit(content, overwrite, store_name);
    assert(now =~= before + seq![edited] + behind);
    lemma_render_chunks_concat(before + seq![edited], behind, source);
    lemma_render_chunks_concat(before, seq![edited], source);
    lemma_render_one(edited, source);
    lemma_render_one(left, source);
    lemma_render_one(right, source);
    assert(joined(Seq::<Seq<u8>>::empty()) =~= Seq::<u8>::empty());
    assert(edited.rendered(source) =~= content);
    assert(left.rendered(source) =~= source.subrange(0, start));
    assert(right.rendered(source) =~= source.subrange(end, len));
    assert(render_chunks(before, source) =~= source.subrange(0, start));
    assert(render_chunks(behind, source) =~= source.subrange(end, len));
    assert(doc.rendered() == source) by {
        lemma_untouched_renders_source(source);
    }
    assert(!doc.inside_edited(start) && !doc.inside_edited(end));
    assert(doc.replace(start, end, content, overwrite, store_name).rendered() =~= source.subrange(
        0,
        start,
    ) + content + source.subrange(end, len));
}

/// A new engine over a string renders that string: the output is valid
/// UTF-8 and decodes to the string.
pub proof fn lemma_untouched_renders_text(text: Seq<char>)
    ensures
        valid_utf8(Document::initial(encode_utf8(text)).rendered()),
        decode_utf8(Document::initial(encode_utf8(text)).rendered()) == text,
{
    lemma_untouched_renders_source(encode_utf8(text));
    encode_utf8_valid_utf8(text);
    encode_utf8_decode_utf8(text);
}

/// Making a boundary changes nothing in the output.
pub proof fn lemma_split_renders_same(doc: Document, offset: int)
    requires
        doc.is_partition(),
    ensures
        doc.split(offset).rendered() == doc.rendered(),
{
    assert forall|i: int| 0 <= i < doc.chunks.len() implies 0 <= (#[trigger] doc.chunks[i]).start
        <= doc.chunks[i].end <= doc.source.len() by {
        doc.lemma_spans_in_source(i);
    }
    lemma_split_chunks_render_same(doc.chunks, doc.source, offset);
}

/// Splitting twice at one offset is splitting once: a split at an offset
/// where a boundary lies changes nothing, and after a split a boundary
/// lies at the offset wherever one can be made.
pub proof fn lemma_split_idempotent(doc: Document, offset: int)
    requires
        doc.is_partition(),
    ensures
        doc.split(offset).split(offset) == doc.split(offset),
        doc.has_boundary(offset) ==> doc.split(offset) == doc,
        doc.splittable(offset) ==> doc.split(offset).has_boundary(offset),
{
    let cut = split_chunks(doc.chunks, offset);
    assert forall|i: int| 0 <= i < cut.len() implies !(#[trigger] cut[i]).divided_at(offset) by {
        let j = lemma_split_chunks_origin(doc.chunks, offset, i);
    }
    lemma_split_chunks_undivided(cut, offset);
    if doc.has_boundary(offset) {
        doc.lemma_boundary_sides(offset);
        doc.lemma_boundary_or_inside(offset);
        lemma_split_chunks_undivided(doc.chunks, offset);
    }
    if doc.splittable(offset) {
        doc.lemma_split_boundary(offset);
    }
}

/// A replacement that is accepted leaves the chunks a partition of the
/// source, with boundaries at both ends of the range.
pub proof fn lemma_replace_partition(
    doc: Document,
    start: int,
    end: int,
    content: Seq<u8>,
    overwrite: bool,
    store_name: bool,
)
    requires
        doc.is_partition(),
        0 <= start,
        doc.range_error(start, end, true) is None,
    ensures
        doc.replace(start, end, content, overwrite, store_name).is_partition(),
        doc.replace(start, end, content, overwrite, store_name).has_boundary(start),
        doc.replace(start, end, content, overwrite, store_name).has_boundary(end),
{
    let cut = doc.split(start).split(end);
    let now = doc.replace(start, end, content, overwrite, store_name);
    doc.lemma_replace_cuts(start, end);
    assert(cut.same_spans(now));
    cut.lemma_same_spans_partition(now);
    let i = choose|i: int|
        0 <= i < cut.chunks.len() && ((#[trigger] cut.chunks[i]).start == start
            || cut.chunks[i].end == start);
    assert(now.chunks[i].start == cut.chunks[i].start && now.chunks[i].end == cut.chunks[i].end);
    let j = choose|j: int|
        0 <= j < cut.chunks.len() && ((#[trigger] cut.chunks[j]).start == end || cut.chunks[j].end
            == end);
    assert(now.chunks[j].start == cut.chunks[j].start && now.chunks[j].end == cut.chunks[j].end);
}

/// A split and a change of single chunks can be made in either order,
/// where that is so for each chunk.
pub proof fn lemma_split_map(
    chunks: Seq<ChunkView>,
    offset: int,
    change: spec_fn(ChunkView) -> ChunkView,
)
    requires
        forall|i: int|
            0 <= i < chunks.len() ==> change(#[trigger] chunks[i]).split(offset)
                == chunks[i].split(offset).map_values(change),
    ensures
        split_chunks(chunks.map_values(change), offset) == split_chunks(
            chunks,
            offset,
        ).map_values(change),
    decreases chunks.len(),
{
    if chunks.len() > 0 {
        let head = chunks.drop_last();
        lemma_split_map(head, offset, change);
        assert(chunks.map_values(change).drop_last() =~= head.map_values(change));
        assert((split_chunks(head, offset) + chunks.last().split(offset)).map_values(change)
            =~= split_chunks(head, offset).map_values(change) + chunks.last().split(
            offset,
        ).map_values(change));
    } else {
        assert(split_chunks(chunks, offset).map_values(change) =~= Seq::<ChunkView>::empty());
    }
}

/// A split of one chunk or of two.
pub proof fn lemma_split_few(x: ChunkView, y: ChunkView, offset: int)
    ensures
        split_chunks(seq![x], offset) == x.split(offset),
        split_chunks(seq![x, y], offset) == x.split(offset) + y.split(offset),
{
    reveal_with_fuel(split_chunks, 3);
    assert(seq![x].drop_last() =~= Seq::<ChunkView>::empty());
    assert(seq![x, y].drop_last() =~= seq![x]);
    assert(Seq::<ChunkView>::empty() + x.split(offset) =~= x.split(offset));
}

/// Two splits of one chunk can be made in either order.
pub proof fn lemma_split_chunk_twice(chunk: ChunkView, first: int, second: int)
    ensures
        split_chunks(chunk.split(first), second) == split_chunks(chunk.split(second), first),
{
    let l1 = chunk.left_of(first);
    let r1 = chunk.right_of(first);
    let l2 = chunk.left_of(second);
    let r2 = chunk.right_of(second);
    lemma_split_few(chunk, chunk, first);
    lemma_split_few(chunk, chunk, second);
    lemma_split_few(l1, r1, second);
    lemma_split_few(l2, r2, first);
    assert(split_chunks(chunk.split(first), second) =~= split_chunks(chunk.split(second), first));
}

/// Two splits can be made in either order.
pub proof fn lemma_split_twice(chunks: Seq<ChunkView>, first: int, second: int)
    ensures
        split_chunks(split_chunks(chunks, first), second) == split_chunks(
            split_chunks(chunks, second),
            first,
        ),
    decreases chunks.len(),
{
    if chunks.len() > 0 {
        let head = chunks.drop_last();
        lemma_split_twice(head, first, second);
        lemma_split_chunks_concat(split_chunks(head, first), chunks.last().split(first), second);
        lemma_split_chunks_concat(split_chunks(head, second), chunks.last().split(second), first);
        lemma_split_chunk_twice(chunks.last(), first, second);
    } else {
        assert(split_chunks(chunks, first) =~= Seq::<ChunkView>::empty());
        assert(split_chunks(chunks, second) =~= Seq::<ChunkView>::empty());
    }
}

/// A replacement of `start..end` and a later split at or behind `end` can
/// be made in either order, where the chunk that starts at `start` ends at
/// `end` or before.
pub proof fn lemma_split_behind_replaced(
    chunks: Seq<ChunkView>,
    start: int,
    end: int,
    content: Seq<u8>,
    overwrite: bool,
    store_name: bool,
    offset: int,
)
    requires
        start < end <= offset,
        forall|i: int|
            0 <= i < chunks.len() && (#[trigger] chunks[i]).start == start ==> chunks[i].end <= end,
    ensures
        split_chunks(
            chunks.map_values(replacing(start, end, content, overwrite, store_name)),
            offset,
        ) == split_chunks(chunks, offset).map_values(
            replacing(start, end, content, overwrite, store_name),
        ),
{
    let change = replacing(start, end, content, overwrite, store_name);
    assert forall|i: int| 0 <= i < chunks.len() implies change(#[trigger] chunks[i]).split(offset)
        == chunks[i].split(offset).map_values(change) by {
        let c = chunks[i];
        assert(change(c).split(offset) =~= c.split(offset).map_values(change));
    }
    lemma_split_map(chunks, offset, change);
}

/// A replacement of `start..end` and a split at or before `start` can be
/// made in either order, where no chunk holds `start` strictly inside.
pub proof fn lemma_split_before_replaced(
    chunks: Seq<ChunkView>,
    start: int,
    end: int,
    content: Seq<u8>,
    overwrite: bool,
    store_name: bool,
    offset: int,
)
    requires
        offset <= start < end,
        forall|i: int| 0 <= i < chunks.len() ==> !(#[trigger] chunks[i]).contains(start),
    ensures
        split_chunks(
            chunks.map_values(replacing(start, end, content, overwrite, store_name)),
            offset,
        ) == split_chunks(chunks, offset).map_values(
            replacing(start, end, content, overwrite, store_name),
        ),
{
    let change = replacing(start, end, content, overwrite, store_name);
    assert forall|i: int| 0 <= i < chunks.len() implies change(#[trigger] chunks[i]).split(offset)
        == chunks[i].split(offset).map_values(change) by {
        let c = chunks[i];
        assert(!c.contains(start));
        assert(change(c).split(offset) =~= c.split(offset).map_values(change));
    }
    lemma_split_map(chunks, offset, change);
}

/// Whether the replacements of `start..end` and of `next_start..next_end`
/// are both accepted by `doc`, and the first range lies before the second.
pub open spec fn disjoint_replacements(
    doc: Document,
    start: int,
    end: int,
    next_start: int,
    next_end: int,
) -> bool {
    &&& doc.is_partition()
    &&& 0 <= start
    &&& end <= next_start
    &&& doc.range_error(start, end, true) is None
    &&& doc.range_error(next_start, next_end, true) is None
}

/// The chunks of a document after boundaries have been made at `a`, `b`, `c`
/// and `d`, in that order.
pub open spec fn cut_four(chunks: Seq<ChunkView>, a: int, b: int, c: int, d: int) -> Seq<
    ChunkView,
> {
    split_chunks(split_chunks(split_chunks(split_chunks(chunks, a), b), c), d)
}

/// After the replacement of a range, a replacement of a later range is
/// accepted, and the two together make all four cuts and then change single
/// chunks.
pub proof fn lemma_replaced_then_later(
    doc: Document,
    start: int,
    end: int,
    content: Seq<u8>,
    overwrite: bool,
    store_name: bool,
    next_start: int,
    next_end: int,
    next_content: Seq<u8>,
    next_overwrite: bool,
    next_store_name: bool,
)
    requires
        disjoint_replacements(doc, start, end, next_start, next_end),
    ensures
        doc.replace(start, end, content, overwrite, store_name).range_error(
            next_start,
            next_end,
            true,
        ) is None,
        doc.replace(start, end, content, overwrite, store_name).replace(
            next_start,
            next_end,
            next_content,
            next_overwrite,
            next_store_name,
        ).chunks == cut_four(doc.chunks, start, end, next_start, next_end).map_values(
            replacing(start, end, content, overwrite, store_name),
        ).map_values(replacing(next_start, next_end, next_content, next_overwrite, next_store_name)),
{
    let (a, b, c, d) = (start, end, next_start, next_end);
    let one = replacing(a, b, content, overwrite, store_name);
    let cut_ab = doc.split(a).split(b);
    doc.lemma_replace_cuts(a, b);
    cut_ab.lemma_boundary_or_inside(b);
    let ab = cut_ab.chunks;
    let abc = split_chunks(ab, c);
    assert forall|i: int| 0 <= i < ab.len() && (#[trigger] ab[i]).start == a implies ab[i].end
        <= b by {
        if ab[i].end > b {
            assert(ab[i].contains(b));
        }
    }
    assert forall|i: int| 0 <= i < abc.len() && (#[trigger] abc[i]).start == a implies abc[i].end
        <= b by {
        let j = lemma_split_chunks_origin(ab, c, i);
    }
    lemma_split_behind_replaced(ab, a, b, content, overwrite, store_name, c);
    lemma_split_behind_replaced(abc, a, b, content, overwrite, store_name, d);
    let after = doc.replace(a, b, content, overwrite, store_name);
    doc.lemma_split_keeps_splittable(a, c);
    doc.split(a).lemma_split_keeps_splittable(b, c);
    doc.lemma_split_keeps_splittable(a, d);
    doc.split(a).lemma_split_keeps_splittable(b, d);
    assert forall|offset: int| offset == c || offset == d implies !after.inside_edited(offset) by {
        if after.inside_edited(offset) {
            let i = choose|i: int|
                0 <= i < after.chunks.len() && (#[trigger] after.chunks[i]).contains(offset)
                    && after.chunks[i].edited is Some;
            assert(after.chunks[i] == one(ab[i]));
            assert(ab[i].contains(offset));
        }
    }
}

/// After the replacement of a range, a replacement of an earlier range is
/// accepted, and the two together make all four cuts and then change single
/// chunks.
pub proof fn lemma_replaced_then_earlier(
    doc: Document,
    start: int,
    end: int,
    content: Seq<u8>,
    overwrite: bool,
    store_name: bool,
    next_start: int,
    next_end: int,
    next_content: Seq<u8>,
    next_overwrite: bool,
    next_store_name: bool,
)
    requires
        disjoint_replacements(doc, start, end, next_start, next_end),
    ensures
        doc.replace(next_start, next_end, next_content, next_overwrite, next_store_name).range_error(
            start,
            end,
            true,
        ) is None,
        doc.replace(next_start, next_end, next_content, next_overwrite, next_store_name).replace(
            start,
            end,
            content,
            overwrite,
            store_name,
        ).chunks == cut_four(doc.chunks, next_start, next_end, start, end).map_values(
            replacing(next_start, next_end, next_content, next_overwrite, next_store_name),
        ).map_values(replacing(start, end, content, overwrite, store_name)),
{
    let (a, b, c, d) = (start, end, next_start, next_end);
    let two = replacing(c, d, next_content, next_overwrite, next_store_name);
    let cut_cd = doc.split(c).split(d);
    doc.lemma_replace_cuts(c, d);
    cut_cd.lemma_boundary_or_inside(c);
    let cd = cut_cd.chunks;
    let cda = split_chunks(cd, a);
    assert forall|i: int| 0 <= i < cda.len() implies !(#[trigger] cda[i]).contains(c) by {
        let j = lemma_split_chunks_origin(cd, a, i);
        assert(!cd[j].contains(c));
    }
    lemma_split_before_replaced(cd, c, d, next_content, next_overwrite, next_store_name, a);
    lemma_split_before_replaced(cda, c, d, next_content, next_overwrite, next_store_name, b);
    let after = doc.replace(c, d, next_content, next_overwrite, next_store_name);
    doc.lemma_split_keeps_splittable(c, a);
    doc.split(c).lemma_split_keeps_splittable(d, a);
    doc.lemma_split_keeps_splittable(c, b);
    doc.split(c).lemma_split_keeps_splittable(d, b);
    assert forall|offset: int| offset == a || offset == b implies !after.inside_edited(offset) by {
        if after.inside_edited(offset) {
            let i = choose|i: int|
                0 <= i < after.chunks.len() && (#[trigger] after.chunks[i]).contains(offset)
                    && after.chunks[i].edited is Some;
            assert(after.chunks[i] == two(cd[i]));
            assert(cd[i].contains(offset));
        }
    }
}

/// The cuts of two ranges can be made in either order.
pub proof fn lemma_cut_four(chunks: Seq<ChunkView>, a: int, b: int, c: int, d: int)
    ensures
        cut_four(chunks, a, b, c, d) == cut_four(chunks, c, d, a, b),
{
    lemma_split_twice(split_chunks(chunks, a), b, c);
    lemma_split_twice(split_chunks(split_chunks(chunks, a), c), b, d);
    lemma_split_twice(chunks, a, c);
    lemma_split_twice(split_chunks(chunks, c), a, d);
}

/// Every chunk of a partition, after any four cuts, starts at or before its
/// end.
pub proof fn lemma_cut_four_spans(doc: Document, a: int, b: int, c: int, d: int, i: int)
    requires
        doc.is_partition(),
        0 <= i < cut_four(doc.chunks, a, b, c, d).len(),
    ensures
        cut_four(doc.chunks, a, b, c, d)[i].start <= cut_four(doc.chunks, a, b, c, d)[i].end,
{
    let first = split_chunks(doc.chunks, a);
    let second = split_chunks(first, b);
    let third = split_chunks(second, c);
    let j = lemma_split_chunks_origin(third, d, i);
    let k = lemma_split_chunks_origin(second, c, j);
    let l = lemma_split_chunks_origin(first, b, k);
    let m = lemma_split_chunks_origin(doc.chunks, a, l);
    doc.lemma_spans_in_source(m);
}

/// Replacements of two ranges that do not overlap can be made in either
/// order: each is accepted after the other if both are accepted before, and
/// both orders leave the same document, hence the same output.
pub proof fn lemma_disjoint_replacements_commute(
    doc: Document,
    first_start: int,
    first_end: int,
    first_content: Seq<u8>,
    first_overwrite: bool,
    first_store_name: bool,
    second_start: int,
    second_end: int,
    second_content: Seq<u8>,
    second_overwrite: bool,
    second_store_name: bool,
)
    requires
        doc.is_partition(),
        0 <= first_start,
        first_end <= second_start,
        doc.range_error(first_start, first_end, true) is None,
        doc.range_error(second_start, second_end, true) is None,
    ensures
        doc.replace(
            first_start,
            first_end,
            first_content,
            first_overwrite,
            first_store_name,
        ).range_error(second_start, second_end, true) is None,
        doc.replace(
            second_start,
            second_end,
            second_content,
            second_overwrite,
            second_store_name,
        ).range_error(first_start, first_end, true) is None,
        doc.replace(
            first_start,
            first_end,
            first_content,
            first_overwrite,
            first_store_name,
        ).replace(second_start, second_end, second_content, second_overwrite, second_store_name)
            == doc.replace(
            second_start,
            second_end,
            second_content,
            second_overwrite,
            second_store_name,
        ).replace(first_start, first_end, first_content, first_overwrite, first_store_name),
{
    let (a, b, c, d) = (first_start, first_end, second_start, second_end);
    let one = replacing(a, b, first_content, first_overwrite, first_store_name);
    let two = replacing(c, d, second_content, second_overwrite, second_store_name);
    lemma_replaced_then_later(
        doc,
        a,
        b,
        first_content,
        first_overwrite,
        first_store_name,
        c,
        d,
        second_content,
        second_overwrite,
        second_store_name,
    );
    lemma_replaced_then_earlier(
        doc,
        a,
        b,
        first_content,
        first_overwrite,
        first_store_name,
        c,
        d,
        second_content,
        second_overwrite,
        second_store_name,
    );
    lemma_cut_four(doc.chunks, a, b, c, d);
    let cut = cut_four(doc.chunks, a, b, c, d);
    // On one list the two replacements change different chunks.
    assert forall|i: int| 0 <= i < cut.len() implies two(one(cut[i])) == one(
        two(#[trigger] cut[i]),
    ) by {
        lemma_cut_four_spans(doc, a, b, c, d, i);
    }
    assert(cut.map_values(one).map_values(two) =~= cut.map_values(two).map_values(one));
}

} // verus!
