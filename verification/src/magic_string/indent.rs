//! Indentation: finding the indent that a source uses, and prefixing every
//! line of the output.
use crate::document::ChunkView;
use crate::document::Document;
use crate::document::joined;
use crate::fragment::indent_fragments;
use crate::fragment::kept_or_grown;
use crate::fragment::TextFragment;
use crate::indentation::clear_of;
use crate::indentation::contents;
use crate::indentation::indent_chunks;
use crate::indentation::lemma_insert_in_middle;
use crate::indentation::lemma_insert_keeps_unedited;
use crate::indentation::mark_lines;
use crate::indentation::unedited_within;
use crate::lines::find_line_starts;
use crate::lines::has_line_start;
use crate::lines::lemma_line_starts_rising;
use crate::lines::lemma_line_starts_within;
use crate::lines::lemma_pending_after_concat;
use crate::lines::line_starts;
use crate::lines::NEWLINE;
use crate::lines::pending_after;
use crate::lines::SPACE;
use crate::lines::TAB;
use crate::magic_string::MagicString;
use vstd::prelude::*;
use vstd::slice::slice_to_vec;
use vstd::string::StringSliceAdditionalSpecFns;

verus! {

/// Whether a line of `source` begins at `at`: at the first byte, or behind a
/// line feed.
pub open spec fn begins_line(source: Seq<u8>, at: int) -> bool {
    0 <= at < source.len() && (at == 0 || source[at - 1] == NEWLINE)
}

/// Whether a line that begins with a tab begins at `at`.
pub open spec fn tabbed_line(source: Seq<u8>, at: int) -> bool {
    begins_line(source, at) && source[at] == TAB
}

/// Whether a line that begins with two spaces or more begins at `at`.
pub open spec fn spaced_line(source: Seq<u8>, at: int) -> bool {
    begins_line(source, at) && at + 1 < source.len() && source[at] == SPACE && source[at + 1]
        == SPACE
}

/// The number of spaces in a row from `at` on.
pub open spec fn leading_spaces(source: Seq<u8>, at: int) -> nat
    decreases source.len() - at,
{
    if 0 <= at < source.len() && source[at] == SPACE {
        1 + leading_spaces(source, at + 1)
    } else {
        0
    }
}

/// The number of lines that begin before `upto` and begin with a tab.
pub open spec fn tabbed_lines(source: Seq<u8>, upto: int) -> nat
    decreases upto,
{
    if upto <= 0 {
        0
    } else if tabbed_line(source, upto - 1) {
        tabbed_lines(source, upto - 1) + 1
    } else {
        tabbed_lines(source, upto - 1)
    }
}

/// The number of lines that begin before `upto` and begin with two spaces
/// or more.
pub open spec fn spaced_lines(source: Seq<u8>, upto: int) -> nat
    decreases upto,
{
    if upto <= 0 {
        0
    } else if spaced_line(source, upto - 1) {
        spaced_lines(source, upto - 1) + 1
    } else {
        spaced_lines(source, upto - 1)
    }
}

/// The least number of leading spaces among the lines that begin before
/// `upto` with two spaces or more, if there is such a line.
pub open spec fn least_spaces(source: Seq<u8>, upto: int) -> Option<nat>
    decreases upto,
{
    if upto <= 0 {
        None
    } else if spaced_line(source, upto - 1) {
        let here = leading_spaces(source, upto - 1);
        match least_spaces(source, upto - 1) {
            Some(least) => if least <= here {
                Some(least)
            } else {
                Some(here)
            },
            None => Some(here),
        }
    } else {
        least_spaces(source, upto - 1)
    }
}

/// The indent that `source` uses. There is none if no line begins with a
/// tab or with two spaces. It is one tab if at least as many lines begin
/// with a tab as with two spaces. Else it is as many spaces as the least
/// indented of the lines that begin with two spaces has.
pub open spec fn guessed_indent(source: Seq<u8>) -> Option<Seq<u8>> {
    let tabs = tabbed_lines(source, source.len() as int);
    let spaces = spaced_lines(source, source.len() as int);
    if tabs == 0 && spaces == 0 {
        None
    } else if tabs >= spaces {
        Some(seq![TAB])
    } else {
        match least_spaces(source, source.len() as int) {
            Some(width) => Some(Seq::new(width, |i: int| SPACE)),
            None => Some(Seq::empty()),
        }
    }
}

/// The least indented spaced line has two spaces at least, and there is one
/// if any line is spaced.
pub proof fn lemma_least_spaces(source: Seq<u8>, upto: int)
    ensures
        spaced_lines(source, upto) > 0 <==> least_spaces(source, upto) is Some,
        least_spaces(source, upto) matches Some(width) ==> width >= 2,
    decreases upto,
{
    if upto > 0 {
        lemma_least_spaces(source, upto - 1);
        if spaced_line(source, upto - 1) {
            reveal_with_fuel(leading_spaces, 3);
        }
    }
}

/// The indent that a source uses is never empty.
pub proof fn lemma_guessed_indent_not_empty(source: Seq<u8>)
    ensures
        guessed_indent(source) matches Some(indent) ==> indent.len() > 0,
{
    lemma_least_spaces(source, source.len() as int);
}

/// The number of spaces in a row from `at` on.
fn count_leading_spaces(source: &[u8], at: usize) -> (r: usize)
    requires
        at <= source@.len(),
    ensures
        r == leading_spaces(source@, at as int),
        at + r <= source@.len(),
{
    let n = source.len();
    let mut i = at;
    while i < n && source[i] == SPACE
        invariant
            at <= i <= n,
            n == source@.len(),
            leading_spaces(source@, at as int) == (i - at) + leading_spaces(source@, i as int),
        decreases n - i,
    {
        i += 1;
    }
    i - at
}

/// Finds the indent that `source` uses, if it uses one.
pub fn guess_indent_str(source: &[u8]) -> (r: Option<Vec<u8>>)
    ensures
        match r {
            Some(indent) => guessed_indent(source@) == Some(indent@),
            None => guessed_indent(source@) is None,
        },
{
    let n = source.len();
    let mut tabs: usize = 0;
    let mut spaces: usize = 0;
    let mut least: usize = 0;
    let mut at_line_start = true;
    let mut i: usize = 0;
    while i < n
        invariant
            i <= n,
            n == source@.len(),
            tabs == tabbed_lines(source@, i as int),
            spaces == spaced_lines(source@, i as int),
            tabs <= i,
            spaces <= i,
            at_line_start == (i == 0 || source@[i - 1] == NEWLINE),
            spaces > 0 ==> least_spaces(source@, i as int) == Some(least as nat),
            spaces == 0 ==> least_spaces(source@, i as int) is None,
        decreases n - i,
    {
        if at_line_start {
            if source[i] == TAB {
                tabs += 1;
            } else if source[i] == SPACE && i + 1 < n && source[i + 1] == SPACE {
                let here = count_leading_spaces(source, i);
                if spaces == 0 || here < least {
                    least = here;
                }
                spaces += 1;
            }
        }
        at_line_start = source[i] == NEWLINE;
        i += 1;
    }
    if tabs == 0 && spaces == 0 {
        return None;
    }
    let mut indent: Vec<u8> = Vec::new();
    if tabs >= spaces {
        indent.push(TAB);
        assert(indent@ =~= seq![TAB]);
        return Some(indent);
    }
    let mut k: usize = 0;
    while k < least
        invariant
            k <= least,
            indent@ == Seq::new(k as nat, |i: int| SPACE),
        decreases least - k,
    {
        indent.push(SPACE);
        k += 1;
        assert(indent@ =~= Seq::new(k as nat, |i: int| SPACE));
    }
    Some(indent)
}

/// Whether indentation rewrites the content of `chunk`, for a cursor that is
/// `pending` when it reaches the chunk: the chunk is edited and a line
/// begins in the text that replaces it.
pub open spec fn rewritten(chunk: ChunkView, pending: bool) -> bool {
    match chunk.edited {
        Some(text) => has_line_start(text, pending),
        None => false,
    }
}

/// How `indent_with` indents.
#[derive(Debug, Clone, Copy)]
pub struct IndentOptions<'a> {
    /// The indent to put in front of every line. With `None` the engine uses
    /// the indent that the source uses, or one tab if it uses none.
    pub indent_str: Option<&'a str>,
}

impl<'a> Default for IndentOptions<'a> {
    fn default() -> (r: Self)
        ensures
            r.indent_str is None,
    {
        IndentOptions { indent_str: None }
    }
}

impl<'a> IndentOptions<'a> {
    /// The indent that these options ask for in `document`.
    pub open spec fn indent_for(self, document: Document) -> Seq<u8> {
        match self.indent_str {
            Some(indent) => indent.spec_bytes(),
            None => document.default_indent(),
        }
    }
}

impl<'t> MagicString<'t> {
    /// The indent used where none is given: the one that the source uses,
    /// or one tab if it uses none. What was found in the source is kept for
    /// the next call.
    fn ensure_indent_str(&mut self) -> (r: Vec<u8>)
        requires
            old(self).wf(),
        ensures
            final(self).wf(),
            final(self)@ == old(self)@,
            r@ == old(self)@.default_indent(),
            match guessed_indent(old(self)@.source) {
                Some(found) => final(self).indent_str is Some && final(self).indent_str->0@
                    == found,
                None => final(self).indent_str is None,
            },
            old(self).indent_str is Some ==> *final(self) == *old(self),
            *final(self) == (MagicString { indent_str: final(self).indent_str, ..*old(self) }),
    {
        if self.indent_str.is_none() {
            self.indent_str = guess_indent_str(self.source);
        }
        assert(self@.chunks =~= old(self)@.chunks);
        match &self.indent_str {
            Some(indent) => slice_to_vec(indent.as_slice()),
            None => {
                let mut tab: Vec<u8> = Vec::new();
                tab.push(TAB);
                assert(tab@ =~= seq![TAB]);
                tab
            },
        }
    }

    /// Whether indentation has left the fragments of `before` in which no
    /// line begins as they were, borrowed or owned: the fragments before and
    /// after the whole output, and the fragment that replaces each edited
    /// chunk. Unedited chunks stay unedited.
    pub open spec fn unindented_kept(&self, before: &Self) -> bool {
        let doc = before@;
        &&& self.intro_fragments().len() == before.intro_fragments().len()
        &&& forall|i: int|
            0 <= i < before.intro_fragments().len() && !has_line_start(
                (#[trigger] before.intro_fragments()[i])@,
                pending_after(joined(doc.intro.take(i)), true),
            ) ==> self.intro_fragments()[i] == before.intro_fragments()[i]
        &&& self.outro_fragments().len() == before.outro_fragments().len()
        &&& forall|i: int|
            0 <= i < before.outro_fragments().len() && !has_line_start(
                (#[trigger] before.outro_fragments()[i])@,
                pending_after(joined(doc.outro.take(i)), doc.pending_at_outro()),
            ) ==> self.outro_fragments()[i] == before.outro_fragments()[i]
        &&& forall|k: int|
            0 <= k < doc.chunks.len() && !rewritten(
                #[trigger] doc.chunks[k],
                pending_after(contents(doc.chunks.take(k), doc.source), doc.pending_at_chunks()),
            ) ==> self.edited_fragment(doc.chunks[k].start) == before.edited_fragment(
                doc.chunks[k].start,
            )
    }

    /// Whether indentation has left the fragments inserted at single chunks
    /// as they were: those behind a chunk all, and those in front of a chunk
    /// but for the indent that may have been put in front of them.
    pub open spec fn inserted_under_indent(&self, before: &Self) -> bool {
        &&& forall|at: int| #[trigger] self.inserted_behind(at) == before.inserted_behind(at)
        &&& forall|at: int|
            kept_or_grown(#[trigger] self.inserted_before(at), before.inserted_before(at))
    }

    /// Prefixes every line of the output with the indent that the source
    /// uses, or with one tab if it uses none. The indent found in the
    /// source is kept for the next call.
    pub fn indent(&mut self)
        requires
            old(self).wf(),
        ensures
            final(self).wf(),
            final(self)@.is_partition(),
            final(self)@ == old(self)@.indented(old(self)@.default_indent()),
            final(self).cached_indent() == guessed_indent(old(self)@.source),
            final(self).unindented_kept(old(self)),
            final(self).inserted_under_indent(old(self)),
    {
        self.indent_with(IndentOptions { indent_str: None })
    }

    /// Prefixes every line of the output with `indent_str`. An empty string
    /// changes nothing.
    pub fn indent_str(&mut self, indent_str: &str)
        requires
            old(self).wf(),
        ensures
            final(self).wf(),
            final(self)@.is_partition(),
            final(self)@ == old(self)@.indented(indent_str.spec_bytes()),
            indent_str.spec_bytes().len() == 0 ==> *final(self) == *old(self),
            final(self).cached_indent() == old(self).cached_indent(),
            final(self).unindented_kept(old(self)),
            final(self).inserted_under_indent(old(self)),
    {
        self.indent_with(IndentOptions { indent_str: Some(indent_str) })
    }

    /// Prefixes every line of the output with the indent that `opts` asks
    /// for.
    ///
    /// A line begins at the first byte of the output, and behind every line
    /// feed, that is neither a line feed nor a carriage return. Texts
    /// inserted around single chunks are passed over. An indent that is
    /// given and empty changes nothing.
    pub fn indent_with(&mut self, opts: IndentOptions<'_>)
        requires
            old(self).wf(),
        ensures
            final(self).wf(),
            final(self)@.is_partition(),
            final(self)@ == old(self)@.indented(opts.indent_for(old(self)@)),
            opts.indent_str matches Some(given) && given.spec_bytes().len() == 0 ==> *final(self)
                == *old(self),
            final(self).cached_indent() == (if opts.indent_str is None {
                guessed_indent(old(self)@.source)
            } else {
                old(self).cached_indent()
            }),
            final(self).unindented_kept(old(self)),
            final(self).inserted_under_indent(old(self)),
    {
        proof {
            self.lemma_wf_partition();
        }
        let indent = match opts.indent_str {
            Some(given) => {
                if given.as_bytes().len() == 0 {
                    return ;
                }
                slice_to_vec(given.as_bytes())
            },
            None => self.ensure_indent_str(),
        };
        proof {
            lemma_guessed_indent_not_empty(self@.source);
        }
        let ghost before = self@;
        let ghost kept = *self;
        let at_chunks = indent_fragments(&mut self.intro, indent.as_slice(), true);
        assert(self@.chunks =~= before.chunks);
        let ghost led = *self;
        let at_outro = self.indent_chunks(indent.as_slice(), at_chunks);
        let ghost mid = self@;
        let ghost done = *self;
        indent_fragments(&mut self.outro, indent.as_slice(), at_outro);
        assert(self@.chunks =~= mid.chunks);
        proof {
            self.lemma_wf_partition();
            reveal(MagicString::edited_kept);
            reveal(MagicString::marked_within);
            assert forall|at: int| #[trigger]
                self.inserted_behind(at) == old(self).inserted_behind(at) by {
                assert(self.inserted_behind(at) == done.inserted_behind(at));
                assert(done.inserted_behind(at) == led.inserted_behind(at));
                assert(led.inserted_behind(at) == kept.inserted_behind(at));
                assert(kept.inserted_behind(at) == old(self).inserted_behind(at));
            }
            assert forall|at: int|
                kept_or_grown(
                    #[trigger] self.inserted_before(at),
                    old(self).inserted_before(at),
                ) by {
                assert(self.inserted_before(at) == done.inserted_before(at));
                assert(kept_or_grown(done.inserted_before(at), led.inserted_before(at)));
                assert(led.inserted_before(at) == kept.inserted_before(at));
                assert(kept.inserted_before(at) == old(self).inserted_before(at));
            }
            assert forall|k: int|
                0 <= k < before.chunks.len() && !rewritten(
                    #[trigger] before.chunks[k],
                    pending_after(
                        contents(before.chunks.take(k), before.source),
                        before.pending_at_chunks(),
                    ),
                ) implies self.edited_fragment(before.chunks[k].start) == old(
                self,
            ).edited_fragment(before.chunks[k].start) by {
                let at = before.chunks[k].start;
                assert(self.edited_fragment(at) == done.edited_fragment(at));
                assert(led.edited_fragment(at) == kept.edited_fragment(at));
                assert(kept.edited_fragment(at) == old(self).edited_fragment(at));
            }
        }
    }

    /// Whether the fragments inserted at single chunks are those of `before`,
    /// but for one more in front at offsets in `from..to`.
    #[verifier::opaque]
    spec fn marked_within(&self, before: &Self, from: int, to: int) -> bool {
        &&& forall|at: int| #[trigger] self.inserted_behind(at) == before.inserted_behind(at)
        &&& forall|at: int|
            kept_or_grown(#[trigger] self.inserted_before(at), before.inserted_before(at))
        &&& forall|at: int|
            at < from || to <= at ==> #[trigger] self.inserted_before(at)
                == before.inserted_before(at)
    }

    /// Nothing is inserted where nothing has changed.
    proof fn lemma_marked_none(&self, before: &Self, from: int, to: int)
        requires
            self.same_inserted(before),
        ensures
            self.marked_within(before, from, to),
    {
        reveal(MagicString::marked_within);
    }

    /// One insertion in front at an offset that has none yet.
    proof fn lemma_marked_insert(
        &self,
        was: &Self,
        before: &Self,
        from: int,
        to: int,
        offset: int,
        content: TextFragment<'t>,
    )
        requires
            was.marked_within(before, from, to),
            from <= offset,
            to <= offset,
            forall|at: int|
                #[trigger] self.inserted_before(at) == (if at == offset {
                    was.inserted_before(at).insert(0, content)
                } else {
                    was.inserted_before(at)
                }),
            forall|at: int| #[trigger] self.inserted_behind(at) == was.inserted_behind(at),
        ensures
            self.marked_within(before, from, offset + 1),
    {
        reveal(MagicString::marked_within);
        assert forall|at: int|
            kept_or_grown(#[trigger] self.inserted_before(at), before.inserted_before(at)) by {
            if at == offset {
                assert(was.inserted_before(at) == before.inserted_before(at));
                assert(self.inserted_before(at).skip(1) =~= was.inserted_before(at));
            } else {
                assert(kept_or_grown(was.inserted_before(at), before.inserted_before(at)));
            }
        }
        assert forall|at: int| at < from || offset + 1 <= at implies #[trigger]
            self.inserted_before(at) == before.inserted_before(at) by {
            assert(was.inserted_before(at) == before.inserted_before(at));
        }
        assert forall|at: int| #[trigger]
            self.inserted_behind(at) == before.inserted_behind(at) by {
            assert(was.inserted_behind(at) == before.inserted_behind(at));
        }
    }

    /// Insertions within a range count as insertions within a wider one.
    proof fn lemma_marked_wider(&self, before: &Self, from: int, to: int, lower: int, upper: int)
        requires
            self.marked_within(before, from, to),
            lower <= from,
            to <= upper,
        ensures
            self.marked_within(before, lower, upper),
    {
        reveal(MagicString::marked_within);
    }

    /// Insertions within one range and then within the next.
    proof fn lemma_marked_next(&self, was: &Self, before: &Self, from: int, mid: int, to: int)
        requires
            was.marked_within(before, from, mid),
            self.marked_within(was, mid, to),
            from <= mid <= to,
        ensures
            self.marked_within(before, from, to),
    {
        reveal(MagicString::marked_within);
        assert forall|at: int|
            kept_or_grown(#[trigger] self.inserted_before(at), before.inserted_before(at)) by {
            if mid <= at {
                assert(was.inserted_before(at) == before.inserted_before(at));
                assert(kept_or_grown(self.inserted_before(at), was.inserted_before(at)));
            } else {
                assert(self.inserted_before(at) == was.inserted_before(at));
                assert(kept_or_grown(was.inserted_before(at), before.inserted_before(at)));
            }
        }
        assert forall|at: int| at < from || to <= at implies #[trigger]
            self.inserted_before(at) == before.inserted_before(at) by {
            assert(self.inserted_before(at) == was.inserted_before(at));
            assert(was.inserted_before(at) == before.inserted_before(at));
        }
        assert forall|at: int| #[trigger]
            self.inserted_behind(at) == before.inserted_behind(at) by {
            assert(was.inserted_behind(at) == before.inserted_behind(at));
        }
    }

    /// Whether the fragment that replaces each chunk of `before` is the one
    /// that replaced it there, but for the chunks among the first `k` whose
    /// content indentation rewrites, for a cursor that is `pending` at the
    /// first chunk.
    #[verifier::opaque]
    spec fn edited_kept(&self, before: &Self, pending: bool, k: int) -> bool {
        let doc = before@;
        forall|i: int|
            0 <= i < doc.chunks.len() && (k <= i || !rewritten(
                #[trigger] doc.chunks[i],
                pending_after(contents(doc.chunks.take(i), doc.source), pending),
            )) ==> self.edited_fragment(doc.chunks[i].start) == before.edited_fragment(
                doc.chunks[i].start,
            )
    }

    /// Before any chunk is indented every fragment is the one it was.
    proof fn lemma_edited_kept_start(&self, pending: bool)
        ensures
            self.edited_kept(self, pending, 0),
    {
        reveal(MagicString::edited_kept);
    }

    /// The indentation of one more chunk leaves the fragments of all other
    /// chunks, and its own unless a line begins in it.
    proof fn lemma_edited_kept_step(&self, was: &Self, before: &Self, pending: bool, k: int)
        requires
            before@.is_partition(),
            0 <= k < before@.chunks.len(),
            was.edited_kept(before, pending, k),
            forall|at: int|
                at != before@.chunks[k].start ==> #[trigger] self.edited_fragment(at)
                    == was.edited_fragment(at),
            !rewritten(
                before@.chunks[k],
                pending_after(contents(before@.chunks.take(k), before@.source), pending),
            ) ==> self.edited_fragment(before@.chunks[k].start) == was.edited_fragment(
                before@.chunks[k].start,
            ),
        ensures
            self.edited_kept(before, pending, k + 1),
    {
        reveal(MagicString::edited_kept);
        let doc = before@;
        assert forall|i: int|
            0 <= i < doc.chunks.len() && (k + 1 <= i || !rewritten(
                #[trigger] doc.chunks[i],
                pending_after(contents(doc.chunks.take(i), doc.source), pending),
            )) implies self.edited_fragment(doc.chunks[i].start) == before.edited_fragment(
            doc.chunks[i].start,
        ) by {
            if i != k {
                doc.lemma_distinct_boundaries(i, k);
                assert(self.edited_fragment(doc.chunks[i].start) == was.edited_fragment(
                    doc.chunks[i].start,
                ));
            }
        }
    }

    /// Indents the chunks in list order, and returns the cursor after the
    /// last.
    fn indent_chunks(&mut self, indent: &[u8], pending: bool) -> (r: bool)
        requires
            old(self).wf(),
        ensures
            final(self).wf(),
            final(self)@.source == old(self)@.source,
            final(self)@.intro == old(self)@.intro,
            final(self)@.outro == old(self)@.outro,
            final(self)@.chunks == indent_chunks(
                old(self)@.chunks,
                old(self)@.source,
                indent@,
                pending,
            ),
            r == pending_after(contents(old(self)@.chunks, old(self)@.source), pending),
            final(self).cached_indent() == old(self).cached_indent(),
            final(self).intro_fragments() == old(self).intro_fragments(),
            final(self).outro_fragments() == old(self).outro_fragments(),
            final(self).edited_kept(old(self), pending, old(self)@.chunks.len() as int),
            final(self).marked_within(old(self), 0, old(self)@.source.len() as int),
    {
        let ghost orig = self@.chunks;
        let ghost source = self@.source;
        let len = self.source.len();
        let mut offset: u32 = 0;
        let mut flag = pending;
        let mut done = false;
        let ghost mut k: int = 0;
        proof {
            self.lemma_wf_partition();
            assert(orig.take(0) =~= Seq::<ChunkView>::empty());
            assert(self@.chunks =~= indent_chunks(orig.take(0), source, indent@, pending)
                + orig.skip(0));
            self.lemma_edited_kept_start(pending);
            self.lemma_marked_none(old(self), 0, 0);
        }
        while !done
            invariant
                self.wf(),
                old(self)@.is_partition(),
                orig == old(self)@.chunks,
                source == old(self)@.source,
                len == source.len(),
                self@.source == source,
                self@.intro == old(self)@.intro,
                self@.outro == old(self)@.outro,
                0 <= k <= orig.len(),
                done <==> k == orig.len(),
                !done ==> offset == orig[k].start,
                self@.chunks == indent_chunks(orig.take(k), source, indent@, pending) + orig.skip(k),
                flag == pending_after(contents(orig.take(k), source), pending),
                self.cached_indent() == old(self).cached_indent(),
                self.intro_fragments() == old(self).intro_fragments(),
                self.outro_fragments() == old(self).outro_fragments(),
                self.edited_kept(old(self), pending, k),
                self.marked_within(
                    old(self),
                    0,
                    if done {
                        len as int
                    } else {
                        offset as int
                    },
                ),
            decreases orig.len() - k,
        {
            let ghost head = indent_chunks(orig.take(k), source, indent@, pending);
            let ghost now = self@.chunks;
            proof {
                self.lemma_wf_partition();
                assert(now[head.len() as int] == orig[k]);
                self.lemma_has_start(offset);
            }
            let idx = self.by_start(offset).unwrap();
            proof {
                self.lemma_view_chunk(idx as int);
                if self.place_of(idx as int) != head.len() {
                    self@.lemma_distinct_boundaries(self.place_of(idx as int), head.len() as int);
                }
                old(self)@.lemma_spans_in_source(k);
            }
            let end = self.chunks[idx].end;
            let ghost was = *self;
            let ghost reached = flag;
            flag = self.indent_chunk(idx, indent, flag);
            proof {
                self.lemma_edited_kept_step(&was, old(self), pending, k);
                self.lemma_marked_next(&was, old(self), 0, offset as int, end as int);
                assert(orig.take(k + 1).drop_last() =~= orig.take(k));
                lemma_pending_after_concat(
                    contents(orig.take(k), source),
                    orig[k].content(source),
                    pending,
                );
                assert(now.take(head.len() as int) =~= head);
                assert(now.skip(head.len() as int + 1) =~= orig.skip(k + 1));
                assert(self@.chunks =~= indent_chunks(orig.take(k + 1), source, indent@, pending)
                    + orig.skip(k + 1));
                if k + 1 < orig.len() {
                    old(self)@.lemma_ordered(k, k + 1);
                }
                k = k + 1;
            }
            if end as usize == len {
                done = true;
            } else {
                offset = end;
            }
        }
        proof {
            assert(orig.take(k) =~= orig);
            assert(orig.skip(k) =~= Seq::<ChunkView>::empty());
            assert(self@.chunks =~= indent_chunks(orig, source, indent@, pending));
        }
        flag
    }

    /// Indents the chunk at `idx` of the store, and returns the cursor after
    /// it.
    fn indent_chunk(&mut self, idx: usize, indent: &[u8], pending: bool) -> (r: bool)
        requires
            old(self).wf(),
            idx < old(self).chunks@.len(),
        ensures
            final(self).wf(),
            final(self)@.source == old(self)@.source,
            final(self)@.intro == old(self)@.intro,
            final(self)@.outro == old(self)@.outro,
            final(self)@.chunks == old(self)@.chunks.take(old(self).place_of(idx as int)) + old(
                self,
            )@.chunks[old(self).place_of(idx as int)].indented(old(self)@.source, indent@, pending)
                + old(self)@.chunks.skip(old(self).place_of(idx as int) + 1),
            r == pending_after(
                old(self)@.chunks[old(self).place_of(idx as int)].content(old(self)@.source),
                pending,
            ),
            final(self).cached_indent() == old(self).cached_indent(),
            final(self).intro_fragments() == old(self).intro_fragments(),
            final(self).outro_fragments() == old(self).outro_fragments(),
            forall|at: int|
                at != old(self).chunks@[idx as int].start ==> #[trigger] final(self).edited_fragment(at) == old(self).edited_fragment(at),
            !rewritten(old(self)@.chunks[old(self).place_of(idx as int)], pending) ==> final(self).edited_fragment(old(self).chunks@[idx as int].start as int) == old(
                self,
            ).edited_fragment(old(self).chunks@[idx as int].start as int),
            final(self).marked_within(
                old(self),
                old(self).chunks@[idx as int].start as int,
                old(self).chunks@[idx as int].end as int,
            ),
    {
        proof {
            self.lemma_view_chunk(idx as int);
        }
        if self.chunks[idx].is_edited() {
            let ghost before = *self;
            let ghost p = self.place_of(idx as int);
            let next = self.chunks[idx].indent_content(indent, pending);
            proof {
                self.lemma_touched(&before, idx as int);
                self.lemma_marked_none(
                    &before,
                    before.chunks@[idx as int].start as int,
                    before.chunks@[idx as int].end as int,
                );
                assert(self@.chunks =~= before@.chunks.take(p) + before@.chunks[p].indented(
                    before@.source,
                    indent@,
                    pending,
                ) + before@.chunks.skip(p + 1));
            }
            next
        } else {
            self.indent_unedited(idx, indent, pending)
        }
    }

    /// Inserts `indent` at every offset of the unedited chunk at `idx` of
    /// the store that begins a line, and returns the cursor after the chunk.
    fn indent_unedited(&mut self, idx: usize, indent: &[u8], pending: bool) -> (r: bool)
        requires
            old(self).wf(),
            idx < old(self).chunks@.len(),
            old(self).chunks@[idx as int]@.edited is None,
        ensures
            final(self).wf(),
            final(self)@.source == old(self)@.source,
            final(self)@.intro == old(self)@.intro,
            final(self)@.outro == old(self)@.outro,
            final(self)@.chunks == old(self)@.chunks.take(old(self).place_of(idx as int)) + old(
                self,
            )@.chunks[old(self).place_of(idx as int)].indented(old(self)@.source, indent@, pending)
                + old(self)@.chunks.skip(old(self).place_of(idx as int) + 1),
            r == pending_after(
                old(self)@.chunks[old(self).place_of(idx as int)].content(old(self)@.source),
                pending,
            ),
            final(self).cached_indent() == old(self).cached_indent(),
            final(self).intro_fragments() == old(self).intro_fragments(),
            final(self).outro_fragments() == old(self).outro_fragments(),
            final(self).same_edited(old(self)),
            final(self).marked_within(
                old(self),
                old(self).chunks@[idx as int].start as int,
                old(self).chunks@[idx as int].end as int,
            ),
    {
        let ghost p = self.place_of(idx as int);
        let ghost whole = self@.chunks[p];
        let ghost a = self@.chunks.take(p);
        let ghost b = self@.chunks.skip(p + 1);
        let ghost source = self@.source;
        proof {
            self.lemma_view_chunk(idx as int);
            self.lemma_wf_partition();
            self@.lemma_spans_in_source(p);
        }
        let start = self.chunks[idx].start;
        let end = self.chunks[idx].end;
        let (starts, next) = find_line_starts(self.source, start, end, pending);
        let ghost marks = line_starts(source, start as int, end as int, pending);
        let n = starts.len();
        let mut j: usize = 0;
        proof {
            assert(marks.take(0) =~= Seq::<int>::empty());
            self.lemma_marked_none(old(self), start as int, start as int);
            assert(self@.chunks =~= a + seq![whole] + b);
            assert forall|i: int| 0 <= i < a.len() implies (#[trigger] a[i]).start < a[i].end
                <= start by {
                self@.lemma_ordered(i, p);
            }
            assert forall|i: int| 0 <= i < b.len() implies end <= (#[trigger] b[i]).start by {
                self@.lemma_ordered(p, p + 1 + i);
            }
        }
        while j < n
            invariant
                self.wf(),
                j <= n,
                n == starts@.len(),
                n == marks.len(),
                starts@.map_values(|offset: u32| offset as int) == marks,
                marks == line_starts(source, start as int, end as int, pending),
                self@.source == source,
                source == old(self)@.source,
                self@.intro == old(self)@.intro,
                self@.outro == old(self)@.outro,
                self.cached_indent() == old(self).cached_indent(),
                self.intro_fragments() == old(self).intro_fragments(),
                self.outro_fragments() == old(self).outro_fragments(),
                self.same_edited(old(self)),
                self.marked_within(
                    old(self),
                    start as int,
                    if j == 0 {
                        start as int
                    } else {
                        marks[j - 1] + 1
                    },
                ),
                start <= end <= source.len(),
                forall|i: int| 0 <= i < a.len() ==> (#[trigger] a[i]).start < a[i].end <= start,
                forall|i: int| 0 <= i < b.len() ==> end <= (#[trigger] b[i]).start,
                self@.chunks == a + mark_lines(seq![whole], marks.take(j as int), indent@) + b,
                unedited_within(
                    mark_lines(seq![whole], marks.take(j as int), indent@),
                    start as int,
                    end as int,
                ),
            decreases n - j,
        {
            let offset = starts[j];
            let ghost m = mark_lines(seq![whole], marks.take(j as int), indent@);
            proof {
                assert(marks[j as int] == starts@.map_values(|offset: u32| offset as int)[j as int]);
                lemma_line_starts_within(source, start as int, end as int, pending, j as int);
                assert(clear_of(a, offset as int));
                assert(clear_of(b, offset as int));
                lemma_insert_in_middle(a, m, b, offset as int, indent@);
                lemma_insert_keeps_unedited(m, offset as int, indent@, start as int, end as int);
                assert(marks.take(j + 1).drop_last() =~= marks.take(j as int));
                assert(!self@.inside_edited(offset as int)) by {
                    if self@.inside_edited(offset as int) {
                        let i = choose|i: int|
                            0 <= i < self@.chunks.len() && (#[trigger] self@.chunks[i]).contains(
                                offset as int,
                            ) && self@.chunks[i].edited is Some;
                        if i < a.len() {
                            assert(self@.chunks[i] == a[i]);
                        } else if i < a.len() + m.len() {
                            assert(self@.chunks[i] == m[i - a.len()]);
                        } else {
                            assert(self@.chunks[i] == b[i - a.len() - m.len()]);
                        }
                    }
                }
            }
            let ghost was = *self;
            let mark = TextFragment::Owned(slice_to_vec(indent));
            let ghost put = mark;
            let _ = self.prepend_right_fragment(offset, mark);
            proof {
                if j > 0 {
                    lemma_line_starts_rising(
                        source,
                        start as int,
                        end as int,
                        pending,
                        j - 1,
                        j as int,
                    );
                }
                self.lemma_marked_insert(
                    &was,
                    old(self),
                    start as int,
                    if j == 0 {
                        start as int
                    } else {
                        marks[j - 1] + 1
                    },
                    offset as int,
                    put,
                );
                assert forall|at: int| #[trigger]
                    self.edited_fragment(at) == old(self).edited_fragment(at) by {
                    assert(was.edited_fragment(at) == old(self).edited_fragment(at));
                }
            }
            j += 1;
        }
        proof {
            assert(marks.take(n as int) =~= marks);
            if n > 0 {
                lemma_line_starts_within(source, start as int, end as int, pending, n - 1);
            }
            self.lemma_marked_wider(
                old(self),
                start as int,
                if n == 0 {
                    start as int
                } else {
                    marks[n - 1] + 1
                },
                start as int,
                end as int,
            );
        }
        next
    }
}

} // verus!
