//! The engine: a store of chunks linked in source order, an index from
//! offsets to the chunks that start and end there, and the operations that
//! keep both in step.
use crate::chunk::Chunk;
use crate::document::append_outro_at;
use crate::document::ChunkView;
use crate::document::Document;
use crate::document::joined;
use crate::document::lemma_split_chunks_undivided;
use crate::document::prepend_intro_at;
use crate::document::render_chunks;
use crate::error::UsageError;
use crate::fragment::grown_behind;
use crate::fragment::grown_in_front;
use crate::fragment::push_fragments;
use crate::fragment::TextFragment;
use crate::fragment::texts;
use crate::laws::lemma_untouched_renders_source;
use crate::magic_string::indent::guessed_indent;
use std::collections::HashMap;
use vstd::prelude::*;
use vstd::slice::slice_to_vec;
use vstd::string::StringSliceAdditionalSpecFns;
use vstd::utf8::decode_utf8;
use vstd::utf8::encode_utf8;
use vstd::utf8::encode_utf8_decode_utf8;
use vstd::utf8::valid_utf8;

pub mod indent;
pub mod mutation;

verus! {

/// An editable text. The source is borrowed and never changes; edits are
/// recorded in a list of chunks that partitions it.
pub struct MagicString<'t> {
    source: &'t [u8],
    intro: Vec<TextFragment<'t>>,
    outro: Vec<TextFragment<'t>>,
    /// The store of chunks. Chunks are added and never removed.
    chunks: Vec<Chunk<'t>>,
    first_chunk_idx: usize,
    last_chunk_idx: usize,
    chunk_by_start: HashMap<u32, usize>,
    chunk_by_end: HashMap<u32, usize>,
    /// The indent found in the source, once it has been looked for and found.
    indent_str: Option<Vec<u8>>,
    /// The positions in the store of the chunks in list order.
    order: Ghost<Seq<usize>>,
    /// For each position in the store, the place of that chunk in the list.
    place: Ghost<Seq<int>>,
}

impl<'t> View for MagicString<'t> {
    type V = Document;

    closed spec fn view(&self) -> Document {
        Document {
            source: self.source@,
            intro: texts(self.intro@),
            outro: texts(self.outro@),
            chunks: Seq::new(self.order@.len(), |i: int| self.chunks@[self.order@[i] as int]@),
        }
    }
}

impl<'t> MagicString<'t> {
    /// The list visits every chunk of the store once, and the links of each
    /// chunk lead to its neighbours in the list.
    spec fn wf_links(&self) -> bool {
        let n = self.chunks@.len();
        let order = self.order@;
        let place = self.place@;
        &&& n > 0
        &&& order.len() == n
        &&& place.len() == n
        &&& forall|i: int| 0 <= i < n ==> 0 <= #[trigger] order[i] < n && place[order[i] as int] == i
        &&& forall|j: int| 0 <= j < n ==> 0 <= #[trigger] place[j] < n && order[place[j]] == j
        &&& self.first_chunk_idx == order[0]
        &&& self.last_chunk_idx == order[n - 1]
        &&& forall|j: int|
            0 <= j < n ==> (#[trigger] self.chunks@[j]).prev == (if place[j] == 0 {
                None
            } else {
                Some(order[place[j] - 1])
            })
        &&& forall|j: int|
            0 <= j < n ==> (#[trigger] self.chunks@[j]).next == (if place[j] == n - 1 {
                None
            } else {
                Some(order[place[j] + 1])
            })
    }

    /// The index holds every chunk under its start and under its end, and
    /// nothing else.
    spec fn wf_index(&self) -> bool {
        let n = self.chunks@.len();
        let by_start = self.chunk_by_start@;
        let by_end = self.chunk_by_end@;
        &&& forall|j: int|
            0 <= j < n ==> by_start.contains_key((#[trigger] self.chunks@[j]).start)
                && by_start[self.chunks@[j].start] == j
        &&& forall|k: u32|
            by_start.contains_key(k) ==> 0 <= #[trigger] by_start[k] < n
                && self.chunks@[by_start[k] as int].start == k
        &&& forall|j: int|
            0 <= j < n ==> by_end.contains_key((#[trigger] self.chunks@[j]).end)
                && by_end[self.chunks@[j].end] == j
        &&& forall|k: u32|
            by_end.contains_key(k) ==> 0 <= #[trigger] by_end[k] < n
                && self.chunks@[by_end[k] as int].end == k
    }

    /// The invariant of the engine: the chunks partition the source, the list
    /// and the index describe the same chunks, and offsets fit in 32 bits.
    pub closed spec fn wf(&self) -> bool {
        &&& self.source@.len() <= u32::MAX
        &&& self.wf_links()
        &&& self.wf_index()
        &&& self@.is_partition()
        &&& self.indent_str matches Some(cached) ==> guessed_indent(self.source@) == Some(cached@)
    }

    /// A well-formed engine holds a partition of its source.
    pub proof fn lemma_wf_partition(&self)
        requires
            self.wf(),
        ensures
            self@.is_partition(),
            self@.source.len() <= u32::MAX,
    {
    }

    /// The indent found in the source, if it has been looked for, was found
    /// and is kept for the next time.
    pub closed spec fn cached_indent(&self) -> Option<Seq<u8>> {
        match self.indent_str {
            Some(indent) => Some(indent@),
            None => None,
        }
    }

    /// The fragments that stand before the whole output.
    pub closed spec fn intro_fragments(&self) -> Seq<TextFragment<'t>> {
        self.intro@
    }

    /// The fragments that stand after the whole output.
    pub closed spec fn outro_fragments(&self) -> Seq<TextFragment<'t>> {
        self.outro@
    }

    /// The fragment that replaces the chunk that starts at `start`. There
    /// is none if no chunk starts there or if that chunk is unedited.
    pub closed spec fn edited_fragment(&self, start: int) -> Option<TextFragment<'t>> {
        if 0 <= start <= u32::MAX && self.chunk_by_start@.contains_key(start as u32) {
            self.chunks@[self.chunk_by_start@[start as u32] as int].edited_content
        } else {
            None
        }
    }

    /// The fragments inserted in front of the chunk that starts at `start`,
    /// in the order of the output. There is none if no chunk starts there.
    pub closed spec fn inserted_before(&self, start: int) -> Seq<TextFragment<'t>> {
        if 0 <= start <= u32::MAX && self.chunk_by_start@.contains_key(start as u32) {
            self.chunks@[self.chunk_by_start@[start as u32] as int].intro@
        } else {
            Seq::empty()
        }
    }

    /// The fragments inserted behind the chunk that ends at `end`, in the
    /// order of the output. There is none if no chunk ends there.
    pub closed spec fn inserted_behind(&self, end: int) -> Seq<TextFragment<'t>> {
        if 0 <= end <= u32::MAX && self.chunk_by_end@.contains_key(end as u32) {
            self.chunks@[self.chunk_by_end@[end as u32] as int].outro@
        } else {
            Seq::empty()
        }
    }

    /// The end of the chunk that starts at `start`, or `start` if no chunk
    /// starts there.
    pub closed spec fn end_of(&self, start: int) -> int {
        if 0 <= start <= u32::MAX && self.chunk_by_start@.contains_key(start as u32) {
            self.chunks@[self.chunk_by_start@[start as u32] as int].end as int
        } else {
            start
        }
    }

    /// Whether the fragments inserted at every offset are those that were
    /// inserted there in `before`.
    pub open spec fn same_inserted(&self, before: &Self) -> bool {
        &&& forall|at: int| #[trigger] self.inserted_before(at) == before.inserted_before(at)
        &&& forall|at: int| #[trigger] self.inserted_behind(at) == before.inserted_behind(at)
    }

    /// Whether every edited chunk is replaced by the fragment that replaced
    /// it in `before`, and no other chunk is edited.
    pub open spec fn same_edited(&self, before: &Self) -> bool {
        forall|start: int| #[trigger] self.edited_fragment(start) == before.edited_fragment(start)
    }

    /// The fragments of the engine are those whose texts the document holds.
    pub proof fn lemma_fragments(&self)
        requires
            self.wf(),
        ensures
            texts(self.intro_fragments()) == self@.intro,
            texts(self.outro_fragments()) == self@.outro,
            forall|i: int|
                0 <= i < self@.chunks.len() ==> match self.edited_fragment(
                    (#[trigger] self@.chunks[i]).start,
                ) {
                    Some(fragment) => self@.chunks[i].edited == Some(fragment@),
                    None => self@.chunks[i].edited is None,
                },
            self.cached_indent() matches Some(indent) ==> guessed_indent(self@.source) == Some(
                indent,
            ),
            forall|i: int|
                0 <= i < self@.chunks.len() ==> texts(
                    self.inserted_before((#[trigger] self@.chunks[i]).start),
                ) == self@.chunks[i].intro && texts(self.inserted_behind(self@.chunks[i].end))
                    == self@.chunks[i].outro && self.end_of(self@.chunks[i].start)
                    == self@.chunks[i].end,
    {
        assert forall|i: int| 0 <= i < self@.chunks.len() implies texts(
            self.inserted_before((#[trigger] self@.chunks[i]).start),
        ) == self@.chunks[i].intro && texts(self.inserted_behind(self@.chunks[i].end))
            == self@.chunks[i].outro && self.end_of(self@.chunks[i].start)
            == self@.chunks[i].end by {
            let j = self.order@[i] as int;
            assert(self@.chunks[i] == self.chunks@[j]@);
            assert(self.chunk_by_start@[self.chunks@[j].start] == j);
            assert(self.chunk_by_end@[self.chunks@[j].end] == j);
        }
        assert forall|i: int| 0 <= i < self@.chunks.len() implies match self.edited_fragment(
            (#[trigger] self@.chunks[i]).start,
        ) {
            Some(fragment) => self@.chunks[i].edited == Some(fragment@),
            None => self@.chunks[i].edited is None,
        } by {
            let j = self.order@[i] as int;
            assert(self@.chunks[i] == self.chunks@[j]@);
            assert(self.chunk_by_start@[self.chunks@[j].start] == j);
        }
    }

    /// An engine over `source` with no edits.
    pub fn new(source: &'t str) -> (r: Self)
        requires
            source.spec_bytes().len() <= u32::MAX,
        ensures
            r.wf(),
            r@ == Document::initial(source.spec_bytes()),
            r@.is_partition(),
            r@.rendered() == source.spec_bytes(),
            r.cached_indent() is None,
    {
        let bytes = source.as_bytes();
        let len = bytes.len() as u32;
        let mut chunks: Vec<Chunk<'t>> = Vec::new();
        chunks.push(Chunk::new(0, len));
        let mut chunk_by_start: HashMap<u32, usize> = HashMap::new();
        chunk_by_start.insert(0, 0);
        let mut chunk_by_end: HashMap<u32, usize> = HashMap::new();
        chunk_by_end.insert(len, 0);
        let ghost order: Seq<usize> = seq![0usize];
        let ghost place: Seq<int> = seq![0int];
        let r = MagicString {
            source: bytes,
            intro: Vec::new(),
            outro: Vec::new(),
            chunks,
            first_chunk_idx: 0,
            last_chunk_idx: 0,
            chunk_by_start,
            chunk_by_end,
            indent_str: None,
            order: Ghost(order),
            place: Ghost(place),
        };
        proof {
            assert(r@.intro =~= Seq::empty());
            assert(r@.outro =~= Seq::empty());
            assert(r@.chunks =~= seq![ChunkView::fresh(0, len as int)]);
            lemma_untouched_renders_source(source.spec_bytes());
        }
        r
    }

    /// The indent found in the source, if it has been looked for, was found
    /// and is kept.
    pub fn cached_indent_bytes(&self) -> (r: Option<Vec<u8>>)
        ensures
            match r {
                Some(indent) => self.cached_indent() == Some(indent@),
                None => self.cached_indent() is None,
            },
    {
        match &self.indent_str {
            Some(indent) => Some(slice_to_vec(indent.as_slice())),
            None => None,
        }
    }

    /// Whether the fragment that replaces the chunk that starts at `start`
    /// borrows its text. There is no answer if no chunk starts there or if
    /// that chunk is unedited.
    pub fn edited_borrows(&self, start: u32) -> (r: Option<bool>)
        requires
            self.wf(),
        ensures
            match self.edited_fragment(start as int) {
                Some(fragment) => r == Some(fragment is Borrowed),
                None => r is None,
            },
    {
        match self.by_start(start) {
            Some(idx) => {
                assert(self.chunk_by_start@[self.chunks@[idx as int].start] == idx);
                match &self.chunks[idx].edited_content {
                    Some(TextFragment::Borrowed(_)) => Some(true),
                    Some(TextFragment::Owned(_)) => Some(false),
                    None => None,
                }
            },
            None => {
                assert(!self.chunk_by_start@.contains_key(start)) by {
                    if self.chunk_by_start@.contains_key(start) {
                        let j = self.chunk_by_start@[start] as int;
                        assert(self.chunks@[j].start == start);
                    }
                }
                None
            },
        }
    }

    /// The length of the source in bytes.
    pub fn len(&self) -> (r: usize)
        ensures
            r == self@.source.len(),
    {
        self.source.len()
    }

    /// The chunk that starts at `offset`, if there is one.
    fn by_start(&self, offset: u32) -> (r: Option<usize>)
        requires
            self.wf(),
        ensures
            match r {
                Some(idx) => idx < self.chunks@.len() && self.chunks@[idx as int].start == offset,
                None => forall|j: int|
                    0 <= j < self.chunks@.len() ==> (#[trigger] self.chunks@[j]).start != offset,
            },
    {
        match self.chunk_by_start.get(&offset) {
            Some(idx) => Some(*idx),
            None => None,
        }
    }

    /// The chunk that ends at `offset`, if there is one.
    fn by_end(&self, offset: u32) -> (r: Option<usize>)
        requires
            self.wf(),
        ensures
            match r {
                Some(idx) => idx < self.chunks@.len() && self.chunks@[idx as int].end == offset,
                None => forall|j: int|
                    0 <= j < self.chunks@.len() ==> (#[trigger] self.chunks@[j]).end != offset,
            },
    {
        match self.chunk_by_end.get(&offset) {
            Some(idx) => Some(*idx),
            None => None,
        }
    }

    /// The chunk at place `i` of the list is the chunk at `order[i]` of the
    /// store.
    proof fn lemma_view_chunk(&self, j: int)
        requires
            self.wf(),
            0 <= j < self.chunks@.len(),
        ensures
            0 <= self.place@[j] < self@.chunks.len(),
            self@.chunks.len() == self.chunks@.len(),
            self@.chunks[self.place@[j]] == self.chunks@[j]@,
            self.order@[self.place@[j]] == j,
    {
    }

    /// The place in the list of the chunk at `j` of the store, once a chunk
    /// has been put behind place `p`.
    spec fn shifted_place(&self, p: int, j: int) -> int {
        if j == self.chunks@.len() {
            p + 1
        } else if self.place@[j] > p {
            self.place@[j] + 1
        } else {
            self.place@[j]
        }
    }

    /// What `divide` has done to the engine `before`: the chunk at `idx` of
    /// the store is cut at `offset`, its right half stands last in the store
    /// and behind it in the list, and the index holds both halves.
    spec fn divided_from(&self, before: &Self, idx: int, offset: u32) -> bool {
        let last = before.chunks.len();
        let n = last as int;
        let p = before.place@[idx];
        let whole = before.chunks@[idx];
        &&& self.source == before.source
        &&& self.intro == before.intro
        &&& self.outro == before.outro
        &&& self.indent_str == before.indent_str
        &&& self.chunks@.len() == n + 1
        &&& forall|j: int|
            0 <= j < n && j != idx ==> (#[trigger] self.chunks@[j])@ == before.chunks@[j]@
                && self.chunks@[j].next == before.chunks@[j].next && self.chunks@[j].prev == (
            if whole.next == Some(j as usize) {
                Some(last)
            } else {
                before.chunks@[j].prev
            })
        &&& forall|j: int|
            0 <= j < n ==> (#[trigger] self.chunks@[j]).edited_content
                == before.chunks@[j].edited_content && self.chunks@[j].intro
                == before.chunks@[j].intro
        &&& forall|j: int|
            0 <= j < n && j != idx ==> (#[trigger] self.chunks@[j]).outro == before.chunks@[j].outro
        &&& self.chunks@[idx].outro@ == Seq::<TextFragment<'t>>::empty()
        &&& self.chunks@[n].intro@ == Seq::<TextFragment<'t>>::empty()
        &&& self.chunks@[n].outro == whole.outro
        &&& self.chunks@[idx]@ == whole@.left_of(offset as int)
        &&& self.chunks@[idx].prev == whole.prev
        &&& self.chunks@[idx].next == Some(last)
        &&& self.chunks@[n]@ == whole@.right_of(offset as int)
        &&& self.chunks@[n].prev == Some(idx as usize)
        &&& self.chunks@[n].next == whole.next
        &&& self.chunk_by_start@ == before.chunk_by_start@.insert(offset, last)
        &&& self.chunk_by_end@ == before.chunk_by_end@.insert(offset, idx as usize).insert(
            whole.end,
            last,
        )
        &&& self.first_chunk_idx == before.first_chunk_idx
        &&& self.last_chunk_idx == (if idx == before.last_chunk_idx {
            last
        } else {
            before.last_chunk_idx
        })
        &&& self.order@ == before.order@.insert(p + 1, last)
        &&& self.place@ == Seq::new((n + 1) as nat, |j: int| before.shifted_place(p, j))
    }

    /// After `divide` the list still visits every chunk once.
    proof fn lemma_divided_order(&self, before: &Self, idx: int, offset: u32)
        requires
            before.wf_links(),
            0 <= idx < before.chunks@.len(),
            self.divided_from(before, idx, offset),
        ensures
            forall|i: int|
                0 <= i < self.chunks@.len() ==> 0 <= #[trigger] self.order@[i] < self.chunks@.len()
                    && self.place@[self.order@[i] as int] == i,
            forall|j: int|
                0 <= j < self.chunks@.len() ==> 0 <= #[trigger] self.place@[j] < self.chunks@.len()
                    && self.order@[self.place@[j]] == j,
            forall|i: int|
                0 <= i <= before.place@[idx] ==> self.order@[i] == #[trigger] before.order@[i],
            forall|i: int|
                before.place@[idx] < i < before.chunks@.len() ==> self.order@[i + 1]
                    == #[trigger] before.order@[i],
            self.order@[before.place@[idx] + 1] == before.chunks@.len(),
            self.order@.len() == self.chunks@.len(),
            self.place@.len() == self.chunks@.len(),
    {
        let n = before.chunks@.len() as int;
        let p = before.place@[idx];
        assert(0 <= p < n);
        assert(before.order@.len() == n);
        assert forall|i: int| 0 <= i < n + 1 implies 0 <= #[trigger] self.order@[i] < n + 1
            && self.place@[self.order@[i] as int] == i by {
            if i <= p {
                assert(self.order@[i] == before.order@[i]);
                assert(before.place@[before.order@[i] as int] == i);
                assert(self.place@[before.order@[i] as int] == before.shifted_place(
                    p,
                    before.order@[i] as int,
                ));
            } else if i > p + 1 {
                assert(self.order@[i] == before.order@[i - 1]);
                assert(before.place@[before.order@[i - 1] as int] == i - 1);
                assert(self.place@[before.order@[i - 1] as int] == before.shifted_place(
                    p,
                    before.order@[i - 1] as int,
                ));
            } else {
                assert(self.order@[i] == n);
                assert(self.place@[n] == before.shifted_place(p, n));
            }
        }
        assert forall|j: int| 0 <= j < n + 1 implies 0 <= #[trigger] self.place@[j] < n + 1
            && self.order@[self.place@[j]] == j by {
            assert(self.place@[j] == before.shifted_place(p, j));
            if j < n {
                let q = before.place@[j];
                assert(before.order@[q] == j);
                if q > p {
                    assert(self.order@[q + 1] == before.order@[q]);
                } else {
                    assert(self.order@[q] == before.order@[q]);
                }
            } else {
                assert(self.order@[p + 1] == n);
            }
        }
        assert forall|i: int| 0 <= i <= p implies self.order@[i] == #[trigger] before.order@[i] by {}
        assert forall|i: int| p < i < n implies self.order@[i + 1] == #[trigger] before.order@[i] by {}
    }

    /// After `divide` the links lead along the list.
    proof fn lemma_divided_links(&self, before: &Self, idx: int, offset: u32)
        requires
            before.wf_links(),
            0 <= idx < before.chunks@.len(),
            self.divided_from(before, idx, offset),
        ensures
            self.wf_links(),
    {
        let n = before.chunks@.len() as int;
        let p = before.place@[idx];
        self.lemma_divided_order(before, idx, offset);
        assert(before.order@[p] == idx);
        assert(self.first_chunk_idx == self.order@[0]) by {
            assert(self.order@[0] == before.order@[0]);
        }
        assert(self.last_chunk_idx == self.order@[n]) by {
            if p == n - 1 {
                assert(before.last_chunk_idx == idx);
            } else {
                assert(before.place@[before.order@[n - 1] as int] == n - 1);
                assert(self.order@[n] == before.order@[n - 1]);
            }
        }
        assert forall|j: int| 0 <= j < n + 1 implies (#[trigger] self.chunks@[j]).prev == (
        if self.place@[j] == 0 {
            None
        } else {
            Some(self.order@[self.place@[j] - 1])
        }) by {
            if j < n && j != idx {
                let q = before.place@[j];
                assert(before.order@[q] == j);
                assert(before.chunks@[j].prev == (if q == 0 {
                    None
                } else {
                    Some(before.order@[q - 1])
                }));
                if q == p + 1 {
                    assert(before.chunks@[idx].next == Some(before.order@[p + 1]));
                } else {
                    if p < n - 1 {
                        assert(before.place@[before.order@[p + 1] as int] == p + 1);
                    }
                    if q > 0 {
                        assert(self.order@[self.place@[j] - 1] == before.order@[q - 1]) by {
                            if q - 1 <= p {
                                assert(self.order@[q - 1] == before.order@[q - 1]);
                            } else {
                                assert(self.order@[q] == before.order@[q - 1]);
                            }
                        }
                    }
                }
            } else if j == idx {
                if p > 0 {
                    assert(self.order@[p - 1] == before.order@[p - 1]);
                }
            } else {
                assert(self.order@[p] == before.order@[p]);
            }
        }
        assert forall|j: int| 0 <= j < n + 1 implies (#[trigger] self.chunks@[j]).next == (
        if self.place@[j] == n {
            None
        } else {
            Some(self.order@[self.place@[j] + 1])
        }) by {
            if j < n && j != idx {
                let q = before.place@[j];
                assert(before.order@[q] == j);
                assert(before.chunks@[j].next == (if q == n - 1 {
                    None
                } else {
                    Some(before.order@[q + 1])
                }));
                if q < n - 1 {
                    assert(before.place@[before.order@[q + 1] as int] == q + 1);
                    assert(self.order@[self.place@[j] + 1] == before.order@[q + 1]) by {
                        if q + 1 <= p {
                            assert(self.order@[q + 1] == before.order@[q + 1]);
                        } else {
                            assert(self.order@[q + 2] == before.order@[q + 1]);
                        }
                    }
                }
            } else if j == n {
                assert(before.chunks@[idx].next == (if p == n - 1 {
                    None
                } else {
                    Some(before.order@[p + 1])
                }));
                if p < n - 1 {
                    assert(self.order@[p + 2] == before.order@[p + 1]);
                }
            }
        }
    }

    /// After `divide` the index holds every chunk under its start and end.
    proof fn lemma_divided_index(&self, before: &Self, idx: int, offset: u32)
        requires
            before.wf_index(),
            0 <= idx < before.chunks@.len(),
            before.chunks@[idx]@.contains(offset as int),
            !before.chunk_by_start@.contains_key(offset),
            !before.chunk_by_end@.contains_key(offset),
            self.divided_from(before, idx, offset),
        ensures
            self.wf_index(),
    {
        let n = before.chunks@.len() as int;
        let whole = before.chunks@[idx];
        assert forall|j: int| 0 <= j < n + 1 implies self.chunk_by_start@.contains_key(
            (#[trigger] self.chunks@[j]).start,
        ) && self.chunk_by_start@[self.chunks@[j].start] == j by {
            if j < n {
                assert(self.chunks@[j]@.start == before.chunks@[j]@.start);
                assert(self.chunks@[j].start == before.chunks@[j].start);
                assert(before.chunk_by_start@.contains_key(before.chunks@[j].start));
                assert(before.chunk_by_start@[before.chunks@[j].start] == j);
                assert(before.chunks@[j].start != offset);
            } else {
                assert(self.chunks@[n]@.start == offset as int);
                assert(self.chunks@[n].start == offset);
            }
        }
        assert forall|k: u32| self.chunk_by_start@.contains_key(k) implies 0
            <= #[trigger] self.chunk_by_start@[k] < n + 1
            && self.chunks@[self.chunk_by_start@[k] as int].start == k by {
            if k != offset {
                let j = before.chunk_by_start@[k] as int;
                assert(self.chunks@[j]@.start == before.chunks@[j]@.start);
            }
        }
        assert forall|j: int| 0 <= j < n + 1 implies self.chunk_by_end@.contains_key(
            (#[trigger] self.chunks@[j]).end,
        ) && self.chunk_by_end@[self.chunks@[j].end] == j by {
            if j < n && j != idx {
                assert(self.chunks@[j]@.end == before.chunks@[j]@.end);
                assert(before.chunk_by_end@.contains_key(before.chunks@[j].end));
                assert(before.chunk_by_end@[before.chunks@[j].end] == j);
                assert(before.chunk_by_end@[whole.end] == idx);
            }
        }
        assert forall|k: u32| self.chunk_by_end@.contains_key(k) implies 0
            <= #[trigger] self.chunk_by_end@[k] < n + 1
            && self.chunks@[self.chunk_by_end@[k] as int].end == k by {
            if k != offset && k != whole.end {
                let j = before.chunk_by_end@[k] as int;
                assert(self.chunks@[j]@.end == before.chunks@[j]@.end);
                assert(before.chunk_by_end@[whole.end] == idx);
            }
        }
    }

    /// After `divide` the two halves stand in the list where the chunk stood.
    proof fn lemma_divided_view(&self, before: &Self, idx: int, offset: u32)
        requires
            before.wf_links(),
            0 <= idx < before.chunks@.len(),
            self.divided_from(before, idx, offset),
        ensures
            self@.source == before@.source,
            self@.intro == before@.intro,
            self@.outro == before@.outro,
            self@.chunks == before@.chunks.update(
                before.place@[idx],
                before.chunks@[idx]@.left_of(offset as int),
            ).insert(before.place@[idx] + 1, before.chunks@[idx]@.right_of(offset as int)),
    {
        let n = before.chunks@.len() as int;
        let p = before.place@[idx];
        let whole = before.chunks@[idx]@;
        let expected = before@.chunks.update(p, whole.left_of(offset as int)).insert(
            p + 1,
            whole.right_of(offset as int),
        );
        self.lemma_divided_order(before, idx, offset);
        assert(before.order@[p] == idx);
        assert forall|i: int| 0 <= i < n + 1 implies self@.chunks[i] == expected[i] by {
            if i < p {
                assert(self.order@[i] == before.order@[i]);
                assert(before.place@[before.order@[i] as int] == i);
            } else if i == p {
                assert(self.order@[i] == before.order@[i]);
            } else if i > p + 1 {
                assert(self.order@[i] == before.order@[i - 1]);
                assert(before.place@[before.order@[i - 1] as int] == i - 1);
            }
        }
        assert(self@.chunks =~= expected);
    }

    /// The place in the list of the chunk at `j` of the store.
    pub closed spec fn place_of(&self, j: int) -> int {
        self.place@[j]
    }

    /// The chunk that follows the chunk at `j` of the store in the list is
    /// the one that its link names.
    proof fn lemma_next_place(&self, j: int)
        requires
            self.wf(),
            0 <= j < self.chunks@.len(),
            self.place@[j] < self.chunks@.len() - 1,
        ensures
            self.chunks@[j].next is Some,
            self.chunks@[j].next->0 < self.chunks@.len(),
            self.place@[self.chunks@[j].next->0 as int] == self.place@[j] + 1,
    {
        let p = self.place@[j];
        assert(self.place@[self.order@[p + 1] as int] == p + 1);
    }

    /// Two chunks of the store with the same place in the list are one.
    proof fn lemma_same_place(&self, j: int, k: int)
        requires
            self.wf(),
            0 <= j < self.chunks@.len(),
            0 <= k < self.chunks@.len(),
        ensures
            self.place@[j] == self.place@[k] <==> j == k,
    {
        assert(self.order@[self.place@[j]] == j);
        assert(self.order@[self.place@[k]] == k);
    }

    /// Where the list has a chunk that starts at `offset`, the store has.
    proof fn lemma_has_start(&self, offset: u32)
        requires
            self.wf(),
            exists|i: int|
                0 <= i < self@.chunks.len() && (#[trigger] self@.chunks[i]).start == offset,
        ensures
            exists|j: int|
                0 <= j < self.chunks@.len() && (#[trigger] self.chunks@[j]).start == offset,
    {
        let i = choose|i: int|
            0 <= i < self@.chunks.len() && (#[trigger] self@.chunks[i]).start == offset;
        assert(self.chunks@[self.order@[i] as int].start == offset);
    }

    /// Where the list has a chunk that ends at `offset`, the store has.
    proof fn lemma_has_end(&self, offset: u32)
        requires
            self.wf(),
            exists|i: int| 0 <= i < self@.chunks.len() && (#[trigger] self@.chunks[i]).end == offset,
        ensures
            exists|j: int| 0 <= j < self.chunks@.len() && (#[trigger] self.chunks@[j]).end == offset,
    {
        let i = choose|i: int|
            0 <= i < self@.chunks.len() && (#[trigger] self@.chunks[i]).end == offset;
        assert(self.chunks@[self.order@[i] as int].end == offset);
    }

    /// Cuts the unedited chunk at `idx` of the store at `offset`, which lies
    /// strictly inside it, and links and indexes the two halves.
    fn divide(&mut self, idx: usize, offset: u32)
        requires
            old(self).wf(),
            idx < old(self).chunks@.len(),
            old(self).chunks@[idx as int]@.divided_at(offset as int),
            !old(self).chunk_by_start@.contains_key(offset),
            !old(self).chunk_by_end@.contains_key(offset),
        ensures
            final(self).wf(),
            final(self)@ == old(self)@.split(offset as int),
            final(self).indent_str == old(self).indent_str,
            final(self).intro == old(self).intro,
            final(self).outro == old(self).outro,
            final(self).same_edited(old(self)),
            final(self).same_inserted(old(self)),
    {
        let ghost before = *self;
        let ghost n = self.chunks@.len() as int;
        let ghost p = self.place@[idx as int];
        let right_idx = self.chunks.len();
        let mut right = self.chunks[idx].split(offset);
        let right_end = right.end;
        let next = self.chunks[idx].next;
        right.prev = Some(idx);
        right.next = next;
        self.chunks.push(right);
        match next {
            Some(next_idx) => {
                self.chunks[next_idx].prev = Some(right_idx);
            },
            None => {},
        }
        self.chunks[idx].next = Some(right_idx);
        if idx == self.last_chunk_idx {
            self.last_chunk_idx = right_idx;
        }
        self.chunk_by_end.insert(offset, idx);
        self.chunk_by_start.insert(offset, right_idx);
        self.chunk_by_end.insert(right_end, right_idx);
        proof {
            self.order = Ghost(before.order@.insert(p + 1, right_idx));
            self.place = Ghost(Seq::new((n + 1) as nat, |j: int| before.shifted_place(p, j)));
            assert(self.divided_from(&before, idx as int, offset));
            self.lemma_divided_links(&before, idx as int, offset);
            self.lemma_divided_index(&before, idx as int, offset);
            self.lemma_divided_view(&before, idx as int, offset);
            before.lemma_divided_partition(idx as int, offset);
            self.lemma_divided_fragments(&before, idx as int, offset);
        }
    }

    /// After `divide` every edited chunk is replaced by the fragment that
    /// replaced it, and the new chunk is unedited.
    proof fn lemma_divided_fragments(&self, before: &Self, idx: int, offset: u32)
        requires
            before.wf_index(),
            0 <= idx < before.chunks@.len(),
            !before.chunk_by_start@.contains_key(offset),
            !before.chunk_by_end@.contains_key(offset),
            self.divided_from(before, idx, offset),
        ensures
            self.same_edited(before),
            self.same_inserted(before),
    {
        let n = before.chunks@.len() as int;
        let whole = before.chunks@[idx];
        assert forall|at: int| #[trigger]
            self.inserted_before(at) == before.inserted_before(at) by {
            if 0 <= at <= u32::MAX {
                let key = at as u32;
                if key != offset && before.chunk_by_start@.contains_key(key) {
                    let j = before.chunk_by_start@[key] as int;
                    assert(self.chunks@[j].intro == before.chunks@[j].intro);
                }
            }
        }
        assert forall|at: int| #[trigger]
            self.inserted_behind(at) == before.inserted_behind(at) by {
            if 0 <= at <= u32::MAX {
                let key = at as u32;
                assert(before.chunk_by_end@[whole.end] == idx);
                if key != offset && key != whole.end && before.chunk_by_end@.contains_key(key) {
                    let j = before.chunk_by_end@[key] as int;
                    assert(before.chunks@[j].end == key);
                    assert(self.chunks@[j].outro == before.chunks@[j].outro);
                }
            }
        }
        assert forall|start: int| #[trigger]
            self.edited_fragment(start) == before.edited_fragment(start) by {
            if 0 <= start <= u32::MAX {
                let key = start as u32;
                if key == offset {
                    assert(self.chunks@[n]@.edited is None);
                } else if before.chunk_by_start@.contains_key(key) {
                    let j = before.chunk_by_start@[key] as int;
                    assert(self.chunks@[j].edited_content == before.chunks@[j].edited_content);
                }
            }
        }
    }

    /// Cutting a chunk of the engine strictly inside its span is what a
    /// split at that offset does, and leaves a partition.
    proof fn lemma_divided_partition(&self, idx: int, offset: u32)
        requires
            self.wf(),
            0 <= idx < self.chunks@.len(),
            self.chunks@[idx]@.divided_at(offset as int),
        ensures
            self@.split(offset as int).chunks == self@.chunks.update(
                self.place@[idx],
                self.chunks@[idx]@.left_of(offset as int),
            ).insert(self.place@[idx] + 1, self.chunks@[idx]@.right_of(offset as int)),
            self@.split(offset as int).is_partition(),
    {
        self.lemma_view_chunk(idx);
        self@.lemma_split_inside(offset as int, self.place@[idx]);
    }

    /// The chunk of the store that holds `offset` strictly inside its span.
    /// There is none where a boundary lies at the offset.
    fn locate(&self, offset: u32) -> (r: Option<usize>)
        requires
            self.wf(),
            offset <= self.source@.len(),
        ensures
            match r {
                Some(idx) => {
                    &&& idx < self.chunks@.len()
                    &&& self.chunks@[idx as int]@.contains(offset as int)
                    &&& !self@.has_boundary(offset as int)
                    &&& !self.chunk_by_start@.contains_key(offset)
                    &&& !self.chunk_by_end@.contains_key(offset)
                },
                None => self@.has_boundary(offset as int),
            },
    {
        if self.by_start(offset).is_some() || self.by_end(offset).is_some() {
            proof {
                let idx = if self.chunk_by_start@.contains_key(offset) {
                    self.chunk_by_start@[offset]
                } else {
                    self.chunk_by_end@[offset]
                };
                self.lemma_view_chunk(idx as int);
                assert(self@.has_boundary(offset as int));
            }
            return None;
        }
        assert(!self@.has_boundary(offset as int)) by {
            if self@.has_boundary(offset as int) {
                let i = choose|i: int|
                    0 <= i < self@.chunks.len() && ((#[trigger] self@.chunks[i]).start == offset
                        || self@.chunks[i].end == offset);
                assert(self@.chunks[i] == self.chunks@[self.order@[i] as int]@);
            }
        }
        let mut idx = self.first_chunk_idx;
        while !self.chunks[idx].contains(offset)
            invariant
                self.wf(),
                idx < self.chunks@.len(),
                self.chunks@[idx as int].start < offset <= self.source@.len(),
                forall|j: int|
                    0 <= j < self.chunks@.len() ==> (#[trigger] self.chunks@[j]).start != offset,
                forall|j: int|
                    0 <= j < self.chunks@.len() ==> (#[trigger] self.chunks@[j]).end != offset,
            decreases self.chunks@.len() - self.place@[idx as int],
        {
            proof {
                self.lemma_view_chunk(idx as int);
                let p = self.place@[idx as int];
                if p == self.chunks@.len() - 1 {
                    assert(self@.chunks[p].end == self.source@.len());
                } else {
                    assert(self@.chunks[p].end == self@.chunks[p + 1].start);
                    assert(self.place@[self.order@[p + 1] as int] == p + 1);
                }
            }
            idx = self.chunks[idx].next.unwrap();
        }
        Some(idx)
    }

    /// Whether a boundary can be made at `offset`.
    pub fn can_split(&self, offset: u32) -> (r: bool)
        requires
            self.wf(),
        ensures
            r == self@.splittable(offset as int),
    {
        if offset as usize > self.source.len() {
            return false;
        }
        proof {
            self@.lemma_boundary_or_inside(offset as int);
        }
        match self.locate(offset) {
            None => true,
            Some(idx) => {
                proof {
                    self.lemma_view_chunk(idx as int);
                }
                !self.chunks[idx].is_edited()
            },
        }
    }

    /// Makes sure that a chunk boundary lies at `offset`.
    ///
    /// Where a chunk already starts or ends there, nothing changes. Else the
    /// chunk that holds the offset is divided in two. The call is refused,
    /// and nothing changes, if the offset lies behind the end of the source
    /// or strictly inside an edited chunk.
    pub fn split_at(&mut self, offset: u32) -> (r: Result<(), UsageError>)
        requires
            old(self).wf(),
        ensures
            final(self).wf(),
            final(self)@.is_partition(),
            r is Ok <==> old(self)@.splittable(offset as int),
            r is Ok ==> final(self)@ == old(self)@.split(offset as int),
            r is Err ==> *final(self) == *old(self),
            r is Err ==> r == Err::<(), UsageError>(
                if offset > old(self)@.source.len() {
                    UsageError::OutOfBounds
                } else {
                    UsageError::EditedChunk
                },
            ),
            old(self)@.has_boundary(offset as int) ==> *final(self) == *old(self),
            final(self).cached_indent() == old(self).cached_indent(),
            final(self).intro_fragments() == old(self).intro_fragments(),
            final(self).outro_fragments() == old(self).outro_fragments(),
            final(self).same_edited(old(self)),
            final(self).same_inserted(old(self)),
    {
        if offset as usize > self.source.len() {
            return Err(UsageError::OutOfBounds);
        }
        proof {
            self@.lemma_boundary_or_inside(offset as int);
        }
        match self.locate(offset) {
            None => {
                proof {
                    lemma_split_chunks_undivided(self@.chunks, offset as int);
                }
                Ok(())
            },
            Some(idx) => {
                proof {
                    self.lemma_view_chunk(idx as int);
                }
                if self.chunks[idx].is_edited() {
                    assert(self@.inside_edited(offset as int));
                    return Err(UsageError::EditedChunk);
                }
                assert(!self@.inside_edited(offset as int));
                self.divide(idx, offset);
                Ok(())
            },
        }
    }

    /// What a change to the chunk at `idx` of the store has left alone: all
    /// but the chunks of the store, every other chunk, and the span and the
    /// links of the chunk itself.
    spec fn touched_from(&self, before: &Self, idx: int) -> bool {
        &&& self.source == before.source
        &&& self.intro == before.intro
        &&& self.outro == before.outro
        &&& self.indent_str == before.indent_str
        &&& self.first_chunk_idx == before.first_chunk_idx
        &&& self.last_chunk_idx == before.last_chunk_idx
        &&& self.chunk_by_start == before.chunk_by_start
        &&& self.chunk_by_end == before.chunk_by_end
        &&& self.order == before.order
        &&& self.place == before.place
        &&& self.chunks@.len() == before.chunks@.len()
        &&& forall|j: int|
            0 <= j < self.chunks@.len() && j != idx ==> #[trigger] self.chunks@[j]
                == before.chunks@[j]
        &&& self.chunks@[idx].start == before.chunks@[idx].start
        &&& self.chunks@[idx].end == before.chunks@[idx].end
        &&& self.chunks@[idx].prev == before.chunks@[idx].prev
        &&& self.chunks@[idx].next == before.chunks@[idx].next
    }

    /// A change to what one chunk carries leaves the engine well formed, and
    /// shows in the list at the place of that chunk only.
    proof fn lemma_touched(&self, before: &Self, idx: int)
        requires
            before.wf(),
            0 <= idx < before.chunks@.len(),
            self.touched_from(before, idx),
        ensures
            self.wf(),
            self@.source == before@.source,
            self@.intro == before@.intro,
            self@.outro == before@.outro,
            self@.chunks == before@.chunks.update(before.place@[idx], self.chunks@[idx]@),
            forall|start: int|
                start != before.chunks@[idx].start ==> #[trigger] self.edited_fragment(start)
                    == before.edited_fragment(start),
            self.edited_fragment(before.chunks@[idx].start as int)
                == self.chunks@[idx].edited_content,
            before.edited_fragment(before.chunks@[idx].start as int)
                == before.chunks@[idx].edited_content,
            forall|at: int|
                at != before.chunks@[idx].start ==> #[trigger] self.inserted_before(at)
                    == before.inserted_before(at),
            self.inserted_before(before.chunks@[idx].start as int) == self.chunks@[idx].intro@,
            before.inserted_before(before.chunks@[idx].start as int) == before.chunks@[idx].intro@,
            forall|at: int|
                at != before.chunks@[idx].end ==> #[trigger] self.inserted_behind(at)
                    == before.inserted_behind(at),
            self.inserted_behind(before.chunks@[idx].end as int) == self.chunks@[idx].outro@,
            before.inserted_behind(before.chunks@[idx].end as int) == before.chunks@[idx].outro@,
            self.end_of(before.chunks@[idx].start as int) == before.chunks@[idx].end,
            forall|at: int| #[trigger] self.end_of(at) == before.end_of(at),
    {
        assert forall|at: int| #[trigger] self.end_of(at) == before.end_of(at) by {
            if 0 <= at <= u32::MAX && before.chunk_by_start@.contains_key(at as u32) {
                let j = before.chunk_by_start@[at as u32] as int;
                if j != idx {
                    assert(self.chunks@[j] == before.chunks@[j]);
                }
            }
        }
        assert forall|at: int| at != before.chunks@[idx].start implies #[trigger]
            self.inserted_before(at) == before.inserted_before(at) by {
            if 0 <= at <= u32::MAX && before.chunk_by_start@.contains_key(at as u32) {
                let j = before.chunk_by_start@[at as u32] as int;
                assert(before.chunks@[j].start == at);
                assert(self.chunks@[j] == before.chunks@[j]);
            }
        }
        assert forall|at: int| at != before.chunks@[idx].end implies #[trigger]
            self.inserted_behind(at) == before.inserted_behind(at) by {
            if 0 <= at <= u32::MAX && before.chunk_by_end@.contains_key(at as u32) {
                let j = before.chunk_by_end@[at as u32] as int;
                assert(before.chunks@[j].end == at);
                assert(self.chunks@[j] == before.chunks@[j]);
            }
        }
        assert(before.chunk_by_end@[before.chunks@[idx].end] == idx);
        assert forall|start: int| start != before.chunks@[idx].start implies #[trigger]
            self.edited_fragment(start) == before.edited_fragment(start) by {
            if 0 <= start <= u32::MAX && before.chunk_by_start@.contains_key(start as u32) {
                let j = before.chunk_by_start@[start as u32] as int;
                assert(before.chunks@[j].start == start);
                assert(j != idx);
                assert(self.chunks@[j] == before.chunks@[j]);
            }
        }
        assert(before.chunk_by_start@[before.chunks@[idx].start] == idx);
        assert(self.wf_links());
        assert(self.wf_index());
        let p = before.place@[idx];
        assert(before.order@[p] == idx);
        assert forall|i: int| 0 <= i < self@.chunks.len() implies self@.chunks[i]
            == before@.chunks.update(p, self.chunks@[idx]@)[i] by {
            if i != p {
                assert(before.place@[before.order@[i] as int] == i);
            }
        }
        assert(self@.chunks =~= before@.chunks.update(p, self.chunks@[idx]@));
        before@.lemma_same_spans_partition(self@);
    }

    /// Puts `content` in front of all that stands before the chunk at `idx`
    /// of the store.
    fn prepend_intro_of(&mut self, idx: usize, content: TextFragment<'t>)
        requires
            old(self).wf(),
            idx < old(self).chunks@.len(),
        ensures
            final(self).wf(),
            final(self)@ == (Document {
                chunks: prepend_intro_at(
                    old(self)@.chunks,
                    old(self).chunks@[idx as int].start as int,
                    content@,
                ),
                ..old(self)@
            }),
            final(self).indent_str == old(self).indent_str,
            final(self).intro == old(self).intro,
            final(self).outro == old(self).outro,
            final(self).same_edited(old(self)),
            forall|at: int|
                #[trigger] final(self).inserted_before(at) == (if at == old(
                    self,
                ).chunks@[idx as int].start {
                    old(self).inserted_before(at).insert(0, content)
                } else {
                    old(self).inserted_before(at)
                }),
            forall|at: int|
                #[trigger] final(self).inserted_behind(at) == old(self).inserted_behind(at),
    {
        let ghost before = *self;
        self.chunks[idx].prepend_intro(content);
        proof {
            self.lemma_touched(&before, idx as int);
            before.lemma_view_chunk(idx as int);
            let p = before.place@[idx as int];
            let offset = before.chunks@[idx as int].start as int;
            assert forall|i: int| 0 <= i < self@.chunks.len() implies self@.chunks[i]
                == prepend_intro_at(before@.chunks, offset, content@)[i] by {
                if i != p {
                    before@.lemma_distinct_boundaries(i, p);
                }
            }
            assert(self@.chunks =~= prepend_intro_at(before@.chunks, offset, content@));
        }
    }

    /// Puts `content` behind all that stands after the chunk at `idx` of the
    /// store.
    fn append_outro_of(&mut self, idx: usize, content: TextFragment<'t>)
        requires
            old(self).wf(),
            idx < old(self).chunks@.len(),
        ensures
            final(self).wf(),
            final(self)@ == (Document {
                chunks: append_outro_at(
                    old(self)@.chunks,
                    old(self).chunks@[idx as int].end as int,
                    content@,
                ),
                ..old(self)@
            }),
            final(self).indent_str == old(self).indent_str,
            final(self).intro == old(self).intro,
            final(self).outro == old(self).outro,
            final(self).same_edited(old(self)),
            forall|at: int|
                #[trigger] final(self).inserted_behind(at) == (if at == old(
                    self,
                ).chunks@[idx as int].end {
                    old(self).inserted_behind(at).push(content)
                } else {
                    old(self).inserted_behind(at)
                }),
            forall|at: int|
                #[trigger] final(self).inserted_before(at) == old(self).inserted_before(at),
    {
        let ghost before = *self;
        self.chunks[idx].append_outro(content);
        proof {
            self.lemma_touched(&before, idx as int);
            before.lemma_view_chunk(idx as int);
            let p = before.place@[idx as int];
            let offset = before.chunks@[idx as int].end as int;
            assert forall|i: int| 0 <= i < self@.chunks.len() implies self@.chunks[i]
                == append_outro_at(before@.chunks, offset, content@)[i] by {
                if i != p {
                    before@.lemma_distinct_boundaries(i, p);
                }
            }
            assert(self@.chunks =~= append_outro_at(before@.chunks, offset, content@));
        }
    }

    /// Inserts the fragment `content` at `offset`, in front of what follows
    /// there: it will stand before the chunk that starts at the offset, and
    /// before anything inserted there earlier. At the end of the source it
    /// will stand before all that stands after the whole output.
    ///
    /// A boundary is made at the offset. The call is refused, and nothing
    /// changes, if the offset lies behind the end of the source or strictly
    /// inside an edited chunk.
    pub fn prepend_right_fragment(&mut self, offset: u32, content: TextFragment<'t>) -> (r: Result<
        (),
        UsageError,
    >)
        requires
            old(self).wf(),
        ensures
            final(self).wf(),
            final(self)@.is_partition(),
            r is Ok <==> old(self)@.splittable(offset as int),
            r is Ok ==> final(self)@ == old(self)@.prepend_right(offset as int, content@),
            r is Err ==> *final(self) == *old(self),
            r is Err ==> r == Err::<(), UsageError>(
                if offset > old(self)@.source.len() {
                    UsageError::OutOfBounds
                } else {
                    UsageError::EditedChunk
                },
            ),
            final(self).cached_indent() == old(self).cached_indent(),
            final(self).intro_fragments() == old(self).intro_fragments(),
            final(self).outro_fragments() == (if r is Ok && !old(self)@.starts_chunk(
                offset as int,
            ) {
                old(self).outro_fragments().insert(0, content)
            } else {
                old(self).outro_fragments()
            }),
            final(self).same_edited(old(self)),
            forall|at: int|
                #[trigger] final(self).inserted_before(at) == (if r is Ok && at == offset && old(
                    self,
                )@.starts_chunk(offset as int) {
                    old(self).inserted_before(at).insert(0, content)
                } else {
                    old(self).inserted_before(at)
                }),
            forall|at: int|
                #[trigger] final(self).inserted_behind(at) == old(self).inserted_behind(at),
    {
        match self.split_at(offset) {
            Err(e) => {
                return Err(e);
            },
            Ok(()) => {},
        }
        let ghost cut = *self;
        proof {
            old(self)@.lemma_split_boundary(offset as int);
            cut@.lemma_boundary_sides(offset as int);
            assert forall|at: int|
                cut.inserted_before(at) == old(self).inserted_before(at) && cut.inserted_behind(
                    at,
                ) == old(self).inserted_behind(at) by {}
        }
        match self.by_start(offset) {
            Some(idx) => {
                proof {
                    self.lemma_view_chunk(idx as int);
                }
                self.prepend_intro_of(idx, content);
                assert forall|start: int| #[trigger]
                    self.edited_fragment(start) == old(self).edited_fragment(start) by {
                    assert(cut.edited_fragment(start) == old(self).edited_fragment(start));
                }
            },
            None => {
                assert(!cut@.starts_chunk(offset as int)) by {
                    if cut@.starts_chunk(offset as int) {
                        let i = choose|i: int|
                            0 <= i < cut@.chunks.len() && (#[trigger] cut@.chunks[i]).start
                                == offset;
                        assert(cut@.chunks[i] == cut.chunks@[cut.order@[i] as int]@);
                    }
                }
                self.outro.insert(0, content);
                proof {
                    assert(self@.outro =~= seq![content@] + cut@.outro);
                    assert forall|i: int| 0 <= i < cut@.chunks.len() implies (
                    #[trigger] cut@.chunks[i]).start != offset by {
                        assert(cut@.chunks[i] == cut.chunks@[cut.order@[i] as int]@);
                    }
                    assert(self@.chunks =~= prepend_intro_at(cut@.chunks, offset as int, content@));
                    assert forall|start: int| #[trigger]
                        self.edited_fragment(start) == old(self).edited_fragment(start) by {
                        assert(cut.edited_fragment(start) == old(self).edited_fragment(start));
                    }
                }
            },
        }
        Ok(())
    }

    /// Inserts `content` at `offset`, in front of what follows there: the
    /// text will stand before the chunk that starts at the offset, and
    /// before anything inserted there earlier.
    ///
    /// A boundary is made at the offset. The call is refused, and nothing
    /// changes, if the offset lies behind the end of the source or strictly
    /// inside an edited chunk.
    pub fn prepend_right(&mut self, offset: u32, content: &'t str) -> (r: Result<(), UsageError>)
        requires
            old(self).wf(),
        ensures
            final(self).wf(),
            final(self)@.is_partition(),
            r is Ok <==> old(self)@.splittable(offset as int),
            r is Ok ==> final(self)@ == old(self)@.prepend_right(
                offset as int,
                content.spec_bytes(),
            ),
            r is Err ==> *final(self) == *old(self),
            r is Err ==> r == Err::<(), UsageError>(
                if offset > old(self)@.source.len() {
                    UsageError::OutOfBounds
                } else {
                    UsageError::EditedChunk
                },
            ),
            final(self).cached_indent() == old(self).cached_indent(),
            final(self).intro_fragments() == old(self).intro_fragments(),
            old(self)@.starts_chunk(offset as int) ==> final(self).outro_fragments() == old(
                self,
            ).outro_fragments(),
            final(self).same_edited(old(self)),
            forall|at: int|
                at != offset ==> #[trigger] final(self).inserted_before(at) == old(
                    self,
                ).inserted_before(at),
            forall|at: int|
                #[trigger] final(self).inserted_behind(at) == old(self).inserted_behind(at),
            grown_in_front(
                final(self).inserted_before(offset as int),
                old(self).inserted_before(offset as int),
                r is Ok && old(self)@.starts_chunk(offset as int),
                content.spec_bytes(),
            ),
            grown_in_front(
                final(self).outro_fragments(),
                old(self).outro_fragments(),
                r is Ok && !old(self)@.starts_chunk(offset as int),
                content.spec_bytes(),
            ),
    {
        let r = self.prepend_right_fragment(offset, TextFragment::borrowed(content));
        proof {
            assert(self.inserted_before(offset as int).skip(1) =~= old(self).inserted_before(
                offset as int,
            ) || !(r is Ok && old(self)@.starts_chunk(offset as int)));
            assert(self.outro_fragments().skip(1) =~= old(self).outro_fragments() || !(r is Ok
                && !old(self)@.starts_chunk(offset as int)));
        }
        r
    }

    /// Inserts the fragment `content` at `offset`, behind what precedes
    /// there: it will stand after the chunk that ends at the offset, and
    /// after anything inserted there earlier. At the start of the source it
    /// will stand after all that stands before the whole output.
    ///
    /// A boundary is made at the offset. The call is refused, and nothing
    /// changes, if the offset lies behind the end of the source or strictly
    /// inside an edited chunk.
    pub fn append_left_fragment(&mut self, offset: u32, content: TextFragment<'t>) -> (r: Result<
        (),
        UsageError,
    >)
        requires
            old(self).wf(),
        ensures
            final(self).wf(),
            final(self)@.is_partition(),
            r is Ok <==> old(self)@.splittable(offset as int),
            r is Ok ==> final(self)@ == old(self)@.append_left(offset as int, content@),
            r is Err ==> *final(self) == *old(self),
            r is Err ==> r == Err::<(), UsageError>(
                if offset > old(self)@.source.len() {
                    UsageError::OutOfBounds
                } else {
                    UsageError::EditedChunk
                },
            ),
            final(self).cached_indent() == old(self).cached_indent(),
            final(self).outro_fragments() == old(self).outro_fragments(),
            final(self).intro_fragments() == (if r is Ok && !old(self)@.ends_chunk(offset as int) {
                old(self).intro_fragments().push(content)
            } else {
                old(self).intro_fragments()
            }),
            final(self).same_edited(old(self)),
            forall|at: int|
                #[trigger] final(self).inserted_behind(at) == (if r is Ok && at == offset && old(
                    self,
                )@.ends_chunk(offset as int) {
                    old(self).inserted_behind(at).push(content)
                } else {
                    old(self).inserted_behind(at)
                }),
            forall|at: int|
                #[trigger] final(self).inserted_before(at) == old(self).inserted_before(at),
    {
        match self.split_at(offset) {
            Err(e) => {
                return Err(e);
            },
            Ok(()) => {},
        }
        let ghost cut = *self;
        proof {
            old(self)@.lemma_split_boundary(offset as int);
            cut@.lemma_boundary_sides(offset as int);
            assert forall|at: int|
                cut.inserted_before(at) == old(self).inserted_before(at) && cut.inserted_behind(
                    at,
                ) == old(self).inserted_behind(at) by {}
        }
        match self.by_end(offset) {
            Some(idx) => {
                proof {
                    self.lemma_view_chunk(idx as int);
                }
                self.append_outro_of(idx, content);
                assert forall|start: int| #[trigger]
                    self.edited_fragment(start) == old(self).edited_fragment(start) by {
                    assert(cut.edited_fragment(start) == old(self).edited_fragment(start));
                }
            },
            None => {
                assert(!cut@.ends_chunk(offset as int)) by {
                    if cut@.ends_chunk(offset as int) {
                        let i = choose|i: int|
                            0 <= i < cut@.chunks.len() && (#[trigger] cut@.chunks[i]).end == offset;
                        assert(cut@.chunks[i] == cut.chunks@[cut.order@[i] as int]@);
                    }
                }
                self.intro.push(content);
                proof {
                    assert(self@.intro =~= cut@.intro.push(content@));
                    assert forall|i: int| 0 <= i < cut@.chunks.len() implies (
                    #[trigger] cut@.chunks[i]).end != offset by {
                        assert(cut@.chunks[i] == cut.chunks@[cut.order@[i] as int]@);
                    }
                    assert(self@.chunks =~= append_outro_at(cut@.chunks, offset as int, content@));
                    assert forall|start: int| #[trigger]
                        self.edited_fragment(start) == old(self).edited_fragment(start) by {
                        assert(cut.edited_fragment(start) == old(self).edited_fragment(start));
                    }
                }
            },
        }
        Ok(())
    }

    /// Inserts `content` at `offset`, behind what precedes there: the text
    /// will stand after the chunk that ends at the offset, and after
    /// anything inserted there earlier.
    ///
    /// A boundary is made at the offset. The call is refused, and nothing
    /// changes, if the offset lies behind the end of the source or strictly
    /// inside an edited chunk.
    pub fn append_left(&mut self, offset: u32, content: &'t str) -> (r: Result<(), UsageError>)
        requires
            old(self).wf(),
        ensures
            final(self).wf(),
            final(self)@.is_partition(),
            r is Ok <==> old(self)@.splittable(offset as int),
            r is Ok ==> final(self)@ == old(self)@.append_left(offset as int, content.spec_bytes()),
            r is Err ==> *final(self) == *old(self),
            r is Err ==> r == Err::<(), UsageError>(
                if offset > old(self)@.source.len() {
                    UsageError::OutOfBounds
                } else {
                    UsageError::EditedChunk
                },
            ),
            final(self).cached_indent() == old(self).cached_indent(),
            final(self).outro_fragments() == old(self).outro_fragments(),
            old(self)@.ends_chunk(offset as int) ==> final(self).intro_fragments() == old(
                self,
            ).intro_fragments(),
            final(self).same_edited(old(self)),
            forall|at: int|
                at != offset ==> #[trigger] final(self).inserted_behind(at) == old(
                    self,
                ).inserted_behind(at),
            forall|at: int|
                #[trigger] final(self).inserted_before(at) == old(self).inserted_before(at),
            grown_behind(
                final(self).inserted_behind(offset as int),
                old(self).inserted_behind(offset as int),
                r is Ok && old(self)@.ends_chunk(offset as int),
                content.spec_bytes(),
            ),
            grown_behind(
                final(self).intro_fragments(),
                old(self).intro_fragments(),
                r is Ok && !old(self)@.ends_chunk(offset as int),
                content.spec_bytes(),
            ),
    {
        let r = self.append_left_fragment(offset, TextFragment::borrowed(content));
        proof {
            assert(self.inserted_behind(offset as int).drop_last() =~= old(self).inserted_behind(
                offset as int,
            ) || !(r is Ok && old(self)@.ends_chunk(offset as int)));
            assert(self.intro_fragments().drop_last() =~= old(self).intro_fragments() || !(r is Ok
                && !old(self)@.ends_chunk(offset as int)));
        }
        r
    }

    /// Puts the fragment `content` before the whole output.
    pub fn prepend_fragment(&mut self, content: TextFragment<'t>)
        requires
            old(self).wf(),
        ensures
            final(self).wf(),
            final(self)@.is_partition(),
            final(self)@ == old(self)@.prepend(content@),
            final(self).cached_indent() == old(self).cached_indent(),
            final(self).intro_fragments() == old(self).intro_fragments().insert(0, content),
            final(self).outro_fragments() == old(self).outro_fragments(),
            final(self).same_edited(old(self)),
            final(self).same_inserted(old(self)),
    {
        self.intro.insert(0, content);
        proof {
            assert(self@.intro =~= seq![content@] + old(self)@.intro);
            assert(self@.chunks =~= old(self)@.chunks);
        }
    }

    /// Puts `content` before the whole output.
    pub fn prepend(&mut self, content: &'t str)
        requires
            old(self).wf(),
        ensures
            final(self).wf(),
            final(self)@.is_partition(),
            final(self)@ == old(self)@.prepend(content.spec_bytes()),
            final(self).cached_indent() == old(self).cached_indent(),
            grown_in_front(
                final(self).intro_fragments(),
                old(self).intro_fragments(),
                true,
                content.spec_bytes(),
            ),
            final(self).outro_fragments() == old(self).outro_fragments(),
            final(self).same_edited(old(self)),
            final(self).same_inserted(old(self)),
    {
        self.prepend_fragment(TextFragment::borrowed(content));
        assert(self.intro_fragments().skip(1) =~= old(self).intro_fragments());
    }

    /// Puts the fragment `content` after the whole output.
    pub fn append_fragment(&mut self, content: TextFragment<'t>)
        requires
            old(self).wf(),
        ensures
            final(self).wf(),
            final(self)@.is_partition(),
            final(self)@ == old(self)@.append(content@),
            final(self).cached_indent() == old(self).cached_indent(),
            final(self).intro_fragments() == old(self).intro_fragments(),
            final(self).outro_fragments() == old(self).outro_fragments().push(content),
            final(self).same_edited(old(self)),
            final(self).same_inserted(old(self)),
    {
        self.outro.push(content);
        proof {
            assert(self@.outro =~= old(self)@.outro.push(content@));
            assert(self@.chunks =~= old(self)@.chunks);
        }
    }

    /// Puts `content` after the whole output.
    pub fn append(&mut self, content: &'t str)
        requires
            old(self).wf(),
        ensures
            final(self).wf(),
            final(self)@.is_partition(),
            final(self)@ == old(self)@.append(content.spec_bytes()),
            final(self).cached_indent() == old(self).cached_indent(),
            final(self).intro_fragments() == old(self).intro_fragments(),
            grown_behind(
                final(self).outro_fragments(),
                old(self).outro_fragments(),
                true,
                content.spec_bytes(),
            ),
            final(self).same_edited(old(self)),
            final(self).same_inserted(old(self)),
    {
        self.append_fragment(TextFragment::borrowed(content));
        assert(self.outro_fragments().drop_last() =~= old(self).outro_fragments());
    }

    /// The edited text.
    pub fn to_bytes(&self) -> (out: Vec<u8>)
        requires
            self.wf(),
        ensures
            out@ == self@.rendered(),
    {
        let mut out: Vec<u8> = Vec::new();
        push_fragments(&mut out, &self.intro);
        assert(out@ =~= joined(self@.intro));
        let mut next = Some(self.first_chunk_idx);
        let ghost mut p: int = 0;
        assert(self@.chunks.take(0) =~= Seq::<ChunkView>::empty());
        while next.is_some()
            invariant
                self.wf(),
                0 <= p <= self.chunks@.len(),
                match next {
                    Some(idx) => p < self.chunks@.len() && idx == self.order@[p],
                    None => p == self.chunks@.len(),
                },
                out@ == joined(self@.intro) + render_chunks(self@.chunks.take(p), self@.source),
            decreases self.chunks@.len() - p,
        {
            let idx = next.unwrap();
            proof {
                self.lemma_view_chunk(idx as int);
                self@.lemma_spans_in_source(p);
                assert(self@.chunks.take(p + 1).drop_last() =~= self@.chunks.take(p));
            }
            self.chunks[idx].render_into(&mut out, self.source);
            next = self.chunks[idx].next;
            proof {
                assert(out@ =~= joined(self@.intro) + render_chunks(
                    self@.chunks.take(p + 1),
                    self@.source,
                ));
                if p + 1 < self.chunks@.len() {
                    assert(self.place@[self.order@[p + 1] as int] == p + 1);
                }
                p = p + 1;
            }
        }
        assert(self@.chunks.take(p) =~= self@.chunks);
        push_fragments(&mut out, &self.outro);
        out
    }

    /// The edited text as a string, if it is valid UTF-8. It is not where an
    /// edit has cut through a character of the source.
    pub fn to_string(&self) -> (r: Option<String>)
        requires
            self.wf(),
        ensures
            r is Some <==> valid_utf8(self@.rendered()),
            r matches Some(text) ==> encode_utf8(text@) == self@.rendered() && text@ == decode_utf8(
                self@.rendered(),
            ),
    {
        let r = string_from_utf8(self.to_bytes());
        proof {
            if r is Some {
                encode_utf8_decode_utf8(r->0@);
            }
        }
        r
    }

    /// The spans of the chunks in list order, each with the mark that its
    /// original text is wanted for name mapping.
    pub fn spans(&self) -> (r: Vec<(u32, u32, bool)>)
        requires
            self.wf(),
        ensures
            r@.len() == self@.chunks.len(),
            forall|i: int|
                0 <= i < r@.len() ==> (#[trigger] r@[i]).0 == self@.chunks[i].start && r@[i].1
                    == self@.chunks[i].end && r@[i].2 == self@.chunks[i].keep_original,
    {
        let mut r: Vec<(u32, u32, bool)> = Vec::new();
        let mut next = Some(self.first_chunk_idx);
        let ghost mut p: int = 0;
        while next.is_some()
            invariant
                self.wf(),
                0 <= p <= self.chunks@.len(),
                match next {
                    Some(idx) => p < self.chunks@.len() && idx == self.order@[p],
                    None => p == self.chunks@.len(),
                },
                r@.len() == p,
                forall|i: int|
                    0 <= i < p ==> (#[trigger] r@[i]).0 == self@.chunks[i].start && r@[i].1
                        == self@.chunks[i].end && r@[i].2 == self@.chunks[i].keep_original,
            decreases self.chunks@.len() - p,
        {
            let idx = next.unwrap();
            proof {
                self.lemma_view_chunk(idx as int);
            }
            let chunk = &self.chunks[idx];
            r.push((chunk.start, chunk.end, chunk.keep_original));
            next = chunk.next;
            proof {
                if p + 1 < self.chunks@.len() {
                    assert(self.place@[self.order@[p + 1] as int] == p + 1);
                }
                p = p + 1;
            }
        }
        r
    }
}

/// `String::from_utf8` of the standard library: it accepts exactly the byte
/// sequences that are valid UTF-8, and the string it returns holds the bytes
/// that it was given.
#[verifier::external_body]
fn string_from_utf8(bytes: Vec<u8>) -> (r: Option<String>)
    ensures
        r is Some <==> valid_utf8(bytes@),
        r matches Some(text) ==> encode_utf8(text@) == bytes@,
{
    String::from_utf8(bytes).ok()
}

} // verus!
