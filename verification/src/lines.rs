//! Line structure of a text: where lines start, and how a text looks once
//! every line is prefixed.
//!
//! A cursor runs over the text byte by byte. It is *pending* when the next
//! byte that is neither a line feed nor a carriage return begins a line.
use vstd::prelude::*;
use vstd::slice::slice_subrange;

verus! {

pub const NEWLINE: u8 = 10;

pub const CARRIAGE_RETURN: u8 = 13;

pub const TAB: u8 = 9;

pub const SPACE: u8 = 32;

/// The cursor after it has passed `byte`: a line feed makes it pending, a
/// carriage return leaves it as it was, any other byte clears it.
pub open spec fn cursor_step(pending: bool, byte: u8) -> bool {
    if byte == NEWLINE {
        true
    } else if byte == CARRIAGE_RETURN {
        pending
    } else {
        false
    }
}

/// The cursor after it has passed all of `text`, having been `pending` before.
pub open spec fn pending_after(text: Seq<u8>, pending: bool) -> bool
    decreases text.len(),
{
    if text.len() == 0 {
        pending
    } else {
        cursor_step(pending_after(text.drop_last(), pending), text.last())
    }
}

/// Whether the byte at `at` begins a line: it is neither a line feed nor a
/// carriage return, and the cursor is pending when it reaches it.
pub open spec fn starts_line(text: Seq<u8>, pending: bool, at: int) -> bool {
    &&& 0 <= at < text.len()
    &&& text[at] != NEWLINE
    &&& text[at] != CARRIAGE_RETURN
    &&& pending_after(text.take(at), pending)
}

/// Whether any byte of `text` begins a line.
pub open spec fn has_line_start(text: Seq<u8>, pending: bool) -> bool {
    exists|at: int| starts_line(text, pending, at)
}

/// `text` with `indent` put in front of every byte that begins a line.
pub open spec fn indented(text: Seq<u8>, indent: Seq<u8>, pending: bool) -> Seq<u8>
    decreases text.len(),
{
    if text.len() == 0 {
        Seq::empty()
    } else {
        let head = indented(text.drop_last(), indent, pending);
        if starts_line(text, pending, text.len() - 1) {
            head + indent + seq![text.last()]
        } else {
            head.push(text.last())
        }
    }
}

/// The offsets in `start..end` of `source` that begin a line, in rising
/// order, for a cursor that is `pending` at `start`.
pub open spec fn line_starts(source: Seq<u8>, start: int, end: int, pending: bool) -> Seq<int>
    decreases end - start,
{
    if end <= start {
        Seq::empty()
    } else {
        let before = line_starts(source, start, end - 1, pending);
        if starts_line(source.subrange(start, end), pending, end - 1 - start) {
            before.push(end - 1)
        } else {
            before
        }
    }
}

/// Every offset that begins a line in `start..end` lies in `start..end`.
pub proof fn lemma_line_starts_within(
    source: Seq<u8>,
    start: int,
    end: int,
    pending: bool,
    i: int,
)
    requires
        0 <= i < line_starts(source, start, end, pending).len(),
    ensures
        start <= line_starts(source, start, end, pending)[i] < end,
    decreases end - start,
{
    if start < end {
        let before = line_starts(source, start, end - 1, pending);
        if i < before.len() {
            lemma_line_starts_within(source, start, end - 1, pending, i);
        }
    }
}

/// The offsets that begin a line come in rising order.
pub proof fn lemma_line_starts_rising(
    source: Seq<u8>,
    start: int,
    end: int,
    pending: bool,
    i: int,
    j: int,
)
    requires
        0 <= i < j < line_starts(source, start, end, pending).len(),
    ensures
        line_starts(source, start, end, pending)[i] < line_starts(source, start, end, pending)[j],
    decreases end - start,
{
    if start < end {
        let before = line_starts(source, start, end - 1, pending);
        if j < before.len() {
            lemma_line_starts_rising(source, start, end - 1, pending, i, j);
        } else {
            lemma_line_starts_within(source, start, end - 1, pending, i);
        }
    }
}

/// Passing two texts one after the other is passing their concatenation.
pub proof fn lemma_pending_after_concat(a: Seq<u8>, b: Seq<u8>, pending: bool)
    ensures
        pending_after(a + b, pending) == pending_after(b, pending_after(a, pending)),
    decreases b.len(),
{
    if b.len() == 0 {
        assert(a + b =~= a);
    } else {
        assert((a + b).drop_last() =~= a + b.drop_last());
        lemma_pending_after_concat(a, b.drop_last(), pending);
    }
}

/// Whether a byte begins a line depends only on the text before it.
pub proof fn lemma_starts_line_prefix(text: Seq<u8>, pending: bool, len: int, at: int)
    requires
        0 <= at < len <= text.len(),
    ensures
        starts_line(text.take(len), pending, at) == starts_line(text, pending, at),
{
    assert(text.take(len).take(at) =~= text.take(at));
}

/// A text in which no byte begins a line is its own indented form.
pub proof fn lemma_indented_without_line_start(text: Seq<u8>, indent: Seq<u8>, pending: bool)
    requires
        !has_line_start(text, pending),
    ensures
        indented(text, indent, pending) == text,
    decreases text.len(),
{
    if text.len() > 0 {
        let head = text.drop_last();
        assert forall|at: int| !starts_line(head, pending, at) by {
            if 0 <= at < head.len() {
                lemma_starts_line_prefix(text, pending, text.len() - 1, at);
                assert(!starts_line(text, pending, at));
            }
        }
        lemma_indented_without_line_start(head, indent, pending);
        assert(!starts_line(text, pending, text.len() - 1));
        assert(head.push(text.last()) =~= text);
    }
}

/// An empty indent changes nothing.
pub proof fn lemma_indented_by_nothing(text: Seq<u8>, pending: bool)
    ensures
        indented(text, Seq::empty(), pending) == text,
    decreases text.len(),
{
    if text.len() > 0 {
        let head = text.drop_last();
        lemma_indented_by_nothing(head, pending);
        assert(head + Seq::<u8>::empty() + seq![text.last()] =~= text);
        assert(head.push(text.last()) =~= text);
    }
}

/// Indenting two texts one after the other, with the cursor carried over, is
/// indenting their concatenation.
pub proof fn lemma_indented_concat(a: Seq<u8>, b: Seq<u8>, indent: Seq<u8>, pending: bool)
    ensures
        indented(a + b, indent, pending) == indented(a, indent, pending) + indented(
            b,
            indent,
            pending_after(a, pending),
        ),
    decreases b.len(),
{
    let mid = pending_after(a, pending);
    if b.len() == 0 {
        assert(a + b =~= a);
        assert(indented(a, indent, pending) + Seq::<u8>::empty() =~= indented(a, indent, pending));
    } else {
        let whole = a + b;
        let last = b.len() - 1;
        assert(whole.drop_last() =~= a + b.drop_last());
        lemma_indented_concat(a, b.drop_last(), indent, pending);
        assert(whole.take(whole.len() - 1) =~= a + b.take(last));
        lemma_pending_after_concat(a, b.take(last), pending);
        assert(starts_line(whole, pending, whole.len() - 1) == starts_line(b, mid, last));
        let x = indented(a, indent, pending);
        let y = indented(b.drop_last(), indent, mid);
        if starts_line(b, mid, last) {
            assert((x + y) + indent + seq![b.last()] =~= x + (y + indent + seq![b.last()]));
        } else {
            assert((x + y).push(b.last()) =~= x + y.push(b.last()));
        }
    }
}

/// The last of the offsets `marks`, or `start` if there is none.
pub open spec fn last_mark(start: int, marks: Seq<int>) -> int {
    if marks.len() == 0 {
        start
    } else {
        marks.last()
    }
}

/// The source from `start` to the last of the offsets `marks`, with
/// `indent` put in at each of them.
pub open spec fn marked_prefix(source: Seq<u8>, start: int, marks: Seq<int>, indent: Seq<u8>) -> Seq<
    u8,
>
    decreases marks.len(),
{
    if marks.len() == 0 {
        Seq::empty()
    } else {
        let before = marks.drop_last();
        marked_prefix(source, start, before, indent) + source.subrange(
            last_mark(start, before),
            marks.last(),
        ) + indent
    }
}

/// The indented span `start..end` of the source is the span with the indent
/// put in at every offset that begins a line.
pub proof fn lemma_indented_span(
    source: Seq<u8>,
    start: int,
    end: int,
    indent: Seq<u8>,
    pending: bool,
)
    requires
        0 <= start <= end <= source.len(),
    ensures
        indented(source.subrange(start, end), indent, pending) == marked_prefix(
            source,
            start,
            line_starts(source, start, end, pending),
            indent,
        ) + source.subrange(last_mark(start, line_starts(source, start, end, pending)), end),
    decreases end - start,
{
    let span = source.subrange(start, end);
    if start == end {
        assert(span =~= Seq::<u8>::empty());
    } else {
        let before = line_starts(source, start, end - 1, pending);
        let from = last_mark(start, before);
        lemma_indented_span(source, start, end - 1, indent, pending);
        assert(span.drop_last() =~= source.subrange(start, end - 1));
        if before.len() > 0 {
            lemma_line_starts_within(source, start, end - 1, pending, before.len() - 1);
        }
        let head = marked_prefix(source, start, before, indent);
        if starts_line(span, pending, end - 1 - start) {
            let marks = before.push(end - 1);
            assert(marks.drop_last() =~= before);
            assert(source.subrange(end - 1, end) =~= seq![span.last()]);
        } else {
            assert(head + source.subrange(from, end) =~= (head + source.subrange(
                from,
                end - 1,
            )).push(span.last()));
        }
    }
}

/// Appends `bytes` to `out`.
pub fn push_all(out: &mut Vec<u8>, bytes: &[u8])
    ensures
        final(out)@ == old(out)@ + bytes@,
{
    let n = bytes.len();
    let mut i: usize = 0;
    while i < n
        invariant
            i <= n,
            n == bytes@.len(),
            out@ == old(out)@ + bytes@.take(i as int),
        decreases n - i,
    {
        out.push(bytes[i]);
        assert(bytes@.take(i + 1) =~= bytes@.take(i as int).push(bytes@[i as int]));
        i += 1;
    }
    assert(bytes@.take(n as int) =~= bytes@);
}

/// The pattern of a line start, in the syntax of the `regex` crate: at the
/// beginning of the text or behind a line feed, any number of carriage
/// returns, and then one byte that is neither a carriage return nor a line
/// feed.
pub const LINE_START: &'static str = "(?m-u)^\\r*[^\\r\\n]";

/// Whether a line begins at `from` and nothing but carriage returns stands
/// between `from` and `at`.
pub open spec fn blank_run(text: Seq<u8>, from: int, at: int) -> bool {
    &&& 0 <= from <= at <= text.len()
    &&& from == 0 || text[from - 1] == NEWLINE
    &&& forall|k: int| from <= k < at ==> text[k] == CARRIAGE_RETURN
}

/// Whether the bytes `from..to` of `text` match the pattern of a line start:
/// a line begins at `from`, carriage returns follow, and the last byte of
/// the match is neither a carriage return nor a line feed.
pub open spec fn line_start_match(text: Seq<u8>, from: int, to: int) -> bool {
    &&& blank_run(text, from, to - 1)
    &&& to <= text.len()
    &&& text[to - 1] != NEWLINE
    &&& text[to - 1] != CARRIAGE_RETURN
}

/// Whether `found` holds the matches of the pattern of a line start in
/// `text`: every pair is a match, each pair ends before the next begins,
/// and no match is missing.
#[verifier::opaque]
pub open spec fn line_start_matches(text: Seq<u8>, found: Seq<(usize, usize)>) -> bool {
    &&& forall|i: int|
        0 <= i < found.len() ==> line_start_match(
            text,
            (#[trigger] found[i]).0 as int,
            found[i].1 as int,
        )
    &&& forall|i: int, j: int|
        0 <= i < j < found.len() ==> (#[trigger] found[i]).1 <= (#[trigger] found[j]).0
    &&& forall|from: int, to: int| #[trigger]
        line_start_match(text, from, to) ==> exists|i: int|
            0 <= i < found.len() && (#[trigger] found[i]).0 == from && found[i].1 == to
}

/// `regex::bytes::Regex::new` and `Regex::find_iter` of the `regex` crate,
/// for the pattern [`LINE_START`] alone: the matches of the pattern in
/// `text` from left to right, each as the offsets of its first byte and of
/// the byte behind its last.
///
/// In multi-line mode `^` matches at the beginning of the text and behind
/// every line feed. With Unicode mode off, `[^\r\n]` matches any one byte
/// but these two. The iterator yields successive matches that do not
/// overlap; two matches of this pattern never share a byte, so none is left
/// out.
#[verifier::external_body]
fn find_line_start_matches(pattern: &str, text: &[u8]) -> (found: Vec<(usize, usize)>)
    requires
        pattern@ == LINE_START@,
    ensures
        line_start_matches(text@, found@),
{
    let compiled = regex::bytes::Regex::new(pattern).unwrap();
    compiled.find_iter(text).map(|m| (m.start(), m.end())).collect()
}

/// The cursor is pending in front of the byte at `at` exactly if nothing
/// but carriage returns stands between the beginning of a line and `at`,
/// and that line begins behind a line feed of the text, or at the
/// beginning of the text with the cursor pending there.
pub proof fn lemma_pending_at(text: Seq<u8>, pending: bool, at: int)
    requires
        0 <= at <= text.len(),
    ensures
        pending_after(text.take(at), pending) <==> exists|from: int|
            #[trigger] blank_run(text, from, at) && (from > 0 || pending),
    decreases at,
{
    if at == 0 {
        assert(blank_run(text, 0, 0));
    } else {
        let byte = text[at - 1];
        assert(text.take(at).drop_last() =~= text.take(at - 1));
        lemma_pending_at(text, pending, at - 1);
        if byte == NEWLINE {
            assert(blank_run(text, at, at));
        } else if byte == CARRIAGE_RETURN {
            if pending_after(text.take(at - 1), pending) {
                let from = choose|from: int|
                    #[trigger] blank_run(text, from, at - 1) && (from > 0 || pending);
                assert(blank_run(text, from, at));
            }
            if exists|from: int| #[trigger] blank_run(text, from, at) && (from > 0 || pending) {
                let from = choose|from: int|
                    #[trigger] blank_run(text, from, at) && (from > 0 || pending);
                assert(blank_run(text, from, at - 1));
            }
        } else {
            assert forall|from: int| !(#[trigger] blank_run(text, from, at)) by {
                if blank_run(text, from, at) {
                    if from < at {
                        assert(text[at - 1] == CARRIAGE_RETURN);
                    }
                }
            }
        }
    }
}

/// Two matches of the pattern of a line start that end at the same byte
/// are one.
pub proof fn lemma_one_match_ends(text: Seq<u8>, from: int, other: int, to: int)
    requires
        line_start_match(text, from, to),
        line_start_match(text, other, to),
    ensures
        from == other,
{
    if from < other {
        assert(text[other - 1] == CARRIAGE_RETURN);
    }
    if other < from {
        assert(text[from - 1] == CARRIAGE_RETURN);
    }
}

/// A byte begins a line exactly if a match of the pattern of a line start
/// ends with it, and the match does not begin the text unless the cursor is
/// pending there.
pub proof fn lemma_starts_line_matches(text: Seq<u8>, pending: bool, at: int)
    ensures
        starts_line(text, pending, at) <==> exists|from: int|
            #[trigger] line_start_match(text, from, at + 1) && (from > 0 || pending),
{
    if 0 <= at < text.len() {
        lemma_pending_at(text, pending, at);
        if starts_line(text, pending, at) {
            let from = choose|from: int|
                #[trigger] blank_run(text, from, at) && (from > 0 || pending);
            assert(line_start_match(text, from, at + 1));
        }
        if exists|from: int|
            #[trigger] line_start_match(text, from, at + 1) && (from > 0 || pending) {
            let from = choose|from: int|
                #[trigger] line_start_match(text, from, at + 1) && (from > 0 || pending);
            assert(blank_run(text, from, at));
        }
    }
}

/// Where no byte of `mid..end` begins a line, the offsets that begin a line
/// in `start..end` are those in `start..mid`.
pub proof fn lemma_line_starts_skip(source: Seq<u8>, start: int, mid: int, end: int, pending: bool)
    requires
        0 <= start <= mid <= end <= source.len(),
        forall|at: int|
            mid <= at < end ==> !#[trigger] starts_line(
                source.subrange(start, source.len() as int),
                pending,
                at - start,
            ),
    ensures
        line_starts(source, start, end, pending) == line_starts(source, start, mid, pending),
    decreases end - mid,
{
    if mid < end {
        lemma_line_starts_skip(source, start, mid, end - 1, pending);
        let rest = source.subrange(start, source.len() as int);
        assert(rest.take(end - start) =~= source.subrange(start, end));
        lemma_starts_line_prefix(rest, pending, end - start, end - 1 - start);
        assert(!starts_line(rest, pending, end - 1 - start));
    }
}

/// Where the byte at `at` begins a line, it is the last of the offsets that
/// begin a line in `start..at + 1`.
pub proof fn lemma_line_starts_push(source: Seq<u8>, start: int, at: int, pending: bool)
    requires
        0 <= start <= at < source.len(),
        starts_line(source.subrange(start, source.len() as int), pending, at - start),
    ensures
        line_starts(source, start, at + 1, pending) == line_starts(
            source,
            start,
            at,
            pending,
        ).push(at),
{
    let rest = source.subrange(start, source.len() as int);
    assert(rest.take(at + 1 - start) =~= source.subrange(start, at + 1));
    lemma_starts_line_prefix(rest, pending, at + 1 - start, at - start);
}

/// A byte of `start..end` begins a line exactly if its offset is among the
/// offsets that begin a line in `start..end`.
pub proof fn lemma_line_starts_hold(
    source: Seq<u8>,
    start: int,
    end: int,
    pending: bool,
    at: int,
)
    requires
        0 <= start <= end <= source.len(),
    ensures
        line_starts(source, start, end, pending).contains(at) <==> start <= at < end
            && starts_line(source.subrange(start, end), pending, at - start),
    decreases end - start,
{
    let marks = line_starts(source, start, end, pending);
    if start < end {
        let before = line_starts(source, start, end - 1, pending);
        lemma_line_starts_hold(source, start, end - 1, pending, at);
        let span = source.subrange(start, end);
        assert(span.take(end - 1 - start) =~= source.subrange(start, end - 1));
        if start <= at < end - 1 {
            lemma_starts_line_prefix(span, pending, end - 1 - start, at - start);
        }
        if starts_line(span, pending, end - 1 - start) {
            assert(marks[before.len() as int] == end - 1);
            assert forall|i: int| 0 <= i < before.len() implies marks[i] == before[i] by {}
            if before.contains(at) {
                let i = choose|i: int| 0 <= i < before.len() && before[i] == at;
                assert(marks[i] == at);
            }
        }
    }
}

/// Each match of the pattern of a line start lies behind the one before it
/// and within the text, and its last byte begins a line unless the match
/// begins the text with the cursor not pending.
pub proof fn lemma_match_decides(
    text: Seq<u8>,
    found: Seq<(usize, usize)>,
    i: int,
    pending: bool,
)
    requires
        line_start_matches(text, found),
        0 <= i < found.len(),
    ensures
        found[i].0 < found[i].1 <= text.len(),
        i > 0 ==> found[i - 1].1 <= found[i].0,
        starts_line(text, pending, found[i].1 - 1) <==> found[i].0 > 0 || pending,
{
    reveal(line_start_matches);
    let from = found[i].0 as int;
    let to = found[i].1 as int;
    assert(line_start_match(text, from, to));
    lemma_starts_line_matches(text, pending, to - 1);
    if starts_line(text, pending, to - 1) {
        let other = choose|other: int|
            #[trigger] line_start_match(text, other, to) && (other > 0 || pending);
        lemma_one_match_ends(text, from, other, to);
    }
    if from > 0 || pending {
        assert(line_start_match(text, from, (to - 1) + 1));
    }
    if i > 0 {
        assert(found[i - 1].1 <= found[i].0);
    }
}

/// Between one match of the pattern of a line start and the last byte of
/// the next, before the last byte of the first match, and behind the last
/// match, no byte begins a line.
pub proof fn lemma_gap_between_matches(
    text: Seq<u8>,
    found: Seq<(usize, usize)>,
    i: int,
    pending: bool,
    at: int,
)
    requires
        line_start_matches(text, found),
        0 <= i <= found.len(),
        (if i == 0 {
            0
        } else {
            found[i - 1].1 as int
        }) <= at < (if i == found.len() {
            text.len() as int
        } else {
            found[i].1 - 1
        }),
    ensures
        !starts_line(text, pending, at),
{
    reveal(line_start_matches);
    lemma_starts_line_matches(text, pending, at);
    if starts_line(text, pending, at) {
        let other = choose|other: int|
            #[trigger] line_start_match(text, other, at + 1) && (other > 0 || pending);
        let k = choose|k: int|
            0 <= k < found.len() && (#[trigger] found[k]).0 == other && found[k].1 == at + 1;
        if k < i {
            if k < i - 1 {
                assert(found[k].1 <= found[i - 1].0);
                assert(line_start_match(text, found[i - 1].0 as int, found[i - 1].1 as int));
            }
        } else if k > i {
            assert(found[i].1 <= found[k].0);
            assert(line_start_match(text, found[k].0 as int, found[k].1 as int));
        }
    }
}

/// The end of the match in front of place `i` of `found`, or the beginning
/// of the text if `i` is the first place.
pub open spec fn searched(found: Seq<(usize, usize)>, i: int) -> int {
    if i == 0 {
        0
    } else {
        found[i - 1].1 as int
    }
}

/// The offsets that begin a line up to the end of one match of the pattern
/// of a line start are those up to the end of the match before it and, if
/// the match counts, its last byte.
pub proof fn lemma_marks_up_to_match(
    text: Seq<u8>,
    found: Seq<(usize, usize)>,
    i: int,
    pending: bool,
)
    requires
        line_start_matches(text, found),
        0 <= i < found.len(),
    ensures
        searched(found, i) <= found[i].0 < found[i].1 <= text.len(),
        line_starts(text, 0, found[i].1 as int, pending) == (if found[i].0 > 0 || pending {
            line_starts(text, 0, searched(found, i), pending).push(found[i].1 - 1)
        } else {
            line_starts(text, 0, searched(found, i), pending)
        }),
{
    let at = found[i].1 - 1;
    let from = searched(found, i);
    lemma_match_decides(text, found, i, pending);
    assert(text.subrange(0, text.len() as int) =~= text);
    assert forall|q: int| from <= q < at implies !#[trigger] starts_line(
        text.subrange(0, text.len() as int),
        pending,
        q - 0,
    ) by {
        lemma_gap_between_matches(text, found, i, pending, q);
    }
    lemma_line_starts_skip(text, 0, from, at, pending);
    if found[i].0 > 0 || pending {
        lemma_line_starts_push(text, 0, at, pending);
    } else {
        lemma_line_starts_skip(text, 0, at, at + 1, pending);
    }
}

/// Behind the last match of the pattern of a line start no byte begins a
/// line.
pub proof fn lemma_marks_behind_matches(text: Seq<u8>, found: Seq<(usize, usize)>, pending: bool)
    requires
        line_start_matches(text, found),
    ensures
        searched(found, found.len() as int) <= text.len(),
        line_starts(text, 0, text.len() as int, pending) == line_starts(
            text,
            0,
            searched(found, found.len() as int),
            pending,
        ),
{
    let n = found.len() as int;
    if n > 0 {
        lemma_match_decides(text, found, n - 1, pending);
    }
    assert(text.subrange(0, text.len() as int) =~= text);
    assert forall|q: int| searched(found, n) <= q < text.len() implies !#[trigger] starts_line(
        text.subrange(0, text.len() as int),
        pending,
        q - 0,
    ) by {
        lemma_gap_between_matches(text, found, n, pending, q);
    }
    lemma_line_starts_skip(text, 0, searched(found, n), text.len() as int, pending);
}

/// `text` has a line start exactly if some offset begins a line in it.
pub proof fn lemma_has_line_start(text: Seq<u8>, pending: bool)
    ensures
        has_line_start(text, pending) <==> line_starts(text, 0, text.len() as int, pending).len()
            > 0,
{
    let marks = line_starts(text, 0, text.len() as int, pending);
    assert(text.subrange(0, text.len() as int) =~= text);
    if has_line_start(text, pending) {
        let q = choose|q: int| starts_line(text, pending, q);
        lemma_line_starts_hold(text, 0, text.len() as int, pending, q);
        assert(marks.contains(q));
    }
    if marks.len() > 0 {
        lemma_line_starts_hold(text, 0, text.len() as int, pending, marks[0]);
        assert(marks.contains(marks[0]));
        assert(starts_line(text, pending, marks[0]));
    }
}

/// The text up to one more mark, with the indent put in at each mark.
pub proof fn lemma_marked_prefix_push(
    source: Seq<u8>,
    start: int,
    marks: Seq<int>,
    at: int,
    indent: Seq<u8>,
)
    ensures
        marked_prefix(source, start, marks.push(at), indent) == marked_prefix(
            source,
            start,
            marks,
            indent,
        ) + source.subrange(last_mark(start, marks), at) + indent,
        last_mark(start, marks.push(at)) == at,
{
    assert(marks.push(at).drop_last() =~= marks);
}

/// The cursor after `text`, having been `pending` before.
pub fn cursor_after(text: &[u8], pending: bool) -> (r: bool)
    ensures
        r == pending_after(text@, pending),
{
    let mut i = text.len();
    assert(text@.take(i as int) =~= text@);
    while i > 0 && text[i - 1] == CARRIAGE_RETURN
        invariant
            i <= text@.len(),
            pending_after(text@, pending) == pending_after(text@.take(i as int), pending),
        decreases i,
    {
        assert(text@.take(i as int).drop_last() =~= text@.take(i - 1));
        i -= 1;
    }
    if i == 0 {
        pending
    } else {
        assert(text@.take(i as int).drop_last() =~= text@.take(i - 1));
        text[i - 1] == NEWLINE
    }
}

/// Puts `indent` in front of every byte of `text` that begins a line, for a
/// cursor that is `pending` at the beginning of the text.
///
/// Returns the indented text, if any byte of `text` begins a line, and the
/// cursor after `text`. A text in which no line begins is not copied.
pub fn indent_bytes(text: &[u8], indent: &[u8], pending: bool) -> (r: (Option<Vec<u8>>, bool))
    ensures
        r.1 == pending_after(text@, pending),
        r.0 is Some <==> has_line_start(text@, pending),
        r.0 matches Some(out) ==> out@ == indented(text@, indent@, pending),
{
    let next = cursor_after(text, pending);
    let found = find_line_start_matches(LINE_START, text);
    let len = text.len();
    let n = found.len();
    let mut out: Vec<u8> = Vec::new();
    let mut copied: usize = 0;
    let mut any = false;
    let mut i: usize = 0;
    let ghost mut marks: Seq<int> = Seq::empty();
    while i < n
        invariant
            i <= n,
            n == found@.len(),
            len == text@.len(),
            line_start_matches(text@, found@),
            copied <= searched(found@, i as int) <= len,
            marks == line_starts(text@, 0, searched(found@, i as int), pending),
            copied == last_mark(0, marks),
            any == (marks.len() > 0),
            out@ == marked_prefix(text@, 0, marks, indent@),
        decreases n - i,
    {
        proof {
            lemma_marks_up_to_match(text@, found@, i as int, pending);
        }
        let (from, to) = found[i];
        if from > 0 || pending {
            let at = to - 1;
            push_all(&mut out, slice_subrange(text, copied, at));
            push_all(&mut out, indent);
            proof {
                lemma_marked_prefix_push(text@, 0, marks, at as int, indent@);
                marks = marks.push(at as int);
            }
            copied = at;
            any = true;
        }
        i += 1;
    }
    proof {
        lemma_marks_behind_matches(text@, found@, pending);
        lemma_has_line_start(text@, pending);
        lemma_indented_span(text@, 0, len as int, indent@, pending);
        assert(text@.subrange(0, len as int) =~= text@);
    }
    if !any {
        return (None, next);
    }
    push_all(&mut out, slice_subrange(text, copied, len));
    (Some(out), next)
}

/// Runs the cursor over `start..end` of `source` and collects the offsets
/// that begin a line.
///
/// Returns the offsets in rising order and the cursor at `end`.
pub fn find_line_starts(source: &[u8], start: u32, end: u32, pending: bool) -> (r: (
    Vec<u32>,
    bool,
))
    requires
        start <= end <= source@.len(),
    ensures
        r.0@.map_values(|offset: u32| offset as int) == line_starts(
            source@,
            start as int,
            end as int,
            pending,
        ),
        r.1 == pending_after(source@.subrange(start as int, end as int), pending),
{
    let mut found: Vec<u32> = Vec::new();
    let mut flag = pending;
    let mut i: u32 = start;
    assert(source@.subrange(start as int, start as int) =~= Seq::<u8>::empty());
    assert(found@.map_values(|offset: u32| offset as int) =~= Seq::<int>::empty());
    while i < end
        invariant
            start <= i <= end <= source@.len(),
            flag == pending_after(source@.subrange(start as int, i as int), pending),
            found@.map_values(|offset: u32| offset as int) == line_starts(
                source@,
                start as int,
                i as int,
                pending,
            ),
        decreases end - i,
    {
        let byte = source[i as usize];
        proof {
            let span = source@.subrange(start as int, i + 1);
            assert(span.drop_last() =~= source@.subrange(start as int, i as int));
            assert(span.take(i - start) =~= source@.subrange(start as int, i as int));
        }
        let ghost before = found@;
        if byte == NEWLINE {
            flag = true;
        } else if byte != CARRIAGE_RETURN && flag {
            found.push(i);
            flag = false;
            assert(found@.map_values(|offset: u32| offset as int) =~= before.map_values(
                |offset: u32| offset as int,
            ).push(i as int));
        }
        i += 1;
    }
    (found, flag)
}

} // verus!
