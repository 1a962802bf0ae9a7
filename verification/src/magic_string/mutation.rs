//! Replacing and removing ranges of the source.
use crate::chunk::EditOptions;
use crate::document::Document;
use crate::error::UsageError;
use crate::fragment::borrows;
use crate::fragment::TextFragment;
use crate::magic_string::MagicString;
use vstd::prelude::*;
use vstd::string::StringSliceAdditionalSpecFns;

verus! {

/// How `update_with` treats what the range already carries.
#[derive(Debug, Clone, Copy)]
pub struct UpdateOptions {
    /// `true` marks the original content of the range as wanted for name
    /// mapping.
    pub keep_original: bool,
    /// `true` drops what was inserted before and after the first chunk of
    /// the range.
    pub overwrite: bool,
}

impl Default for UpdateOptions {
    fn default() -> (r: Self)
        ensures
            !r.keep_original,
            !r.overwrite,
    {
        UpdateOptions { keep_original: false, overwrite: false }
    }
}

/// What is returned for a range that `range_error` judges.
pub open spec fn outcome(error: Option<UsageError>) -> Result<(), UsageError> {
    match error {
        Some(e) => Err(e),
        None => Ok(()),
    }
}

impl<'t> MagicString<'t> {
    /// What a replacement of `start..end` leaves alone beside the document:
    /// the indent that is kept, the fragments before and after the whole
    /// output, and the fragment that replaces each edited chunk that starts
    /// outside the range.
    pub open spec fn kept_outside(&self, before: &Self, start: int, end: int) -> bool {
        &&& self.cached_indent() == before.cached_indent()
        &&& self.intro_fragments() == before.intro_fragments()
        &&& self.outro_fragments() == before.outro_fragments()
        &&& forall|at: int|
            at < start || end <= at ==> #[trigger] self.edited_fragment(at)
                == before.edited_fragment(at)
    }

    /// What a replacement that starts at `start` leaves of the fragments
    /// inserted at single chunks: all of them, but that the chunk that
    /// starts at `start` has lost those in front of it and behind it if
    /// `cleared` says so.
    pub open spec fn inserted_kept(&self, before: &Self, start: int, cleared: bool) -> bool {
        &&& forall|at: int|
            #[trigger] self.inserted_before(at) == (if cleared && at == start {
                Seq::empty()
            } else {
                before.inserted_before(at)
            })
        &&& forall|at: int|
            #[trigger] self.inserted_behind(at) == (if cleared && at == self.end_of(start) {
                Seq::empty()
            } else {
                before.inserted_behind(at)
            })
    }

    /// Replaces the range `start..end` of the source by the fragment
    /// `content`, which may be borrowed or own its text.
    ///
    /// Boundaries are made at both ends of the range. The chunk that starts
    /// at `start` takes the fragment as it is, and the chunks after it that
    /// end before `end` become empty. The call is refused, and nothing
    /// changes, if the range is empty or inverted, reaches behind the
    /// source, or has an end strictly inside an edited chunk.
    pub fn update_fragment(
        &mut self,
        start: u32,
        end: u32,
        content: TextFragment<'t>,
        opts: UpdateOptions,
    ) -> (r: Result<(), UsageError>)
        requires
            old(self).wf(),
        ensures
            final(self).wf(),
            final(self)@.is_partition(),
            r == outcome(old(self)@.range_error(start as int, end as int, true)),
            r is Err ==> *final(self) == *old(self),
            r is Ok ==> final(self)@ == old(self)@.replace(
                start as int,
                end as int,
                content@,
                opts.overwrite,
                opts.keep_original,
            ),
            r is Ok ==> final(self).edited_fragment(start as int) == Some(content),
            final(self).kept_outside(old(self), start as int, end as int),
            final(self).inserted_kept(old(self), start as int, r is Ok && opts.overwrite),
    {
        self.update_with_inner(start, end, content, opts, true)
    }

    /// Replaces the range `start..end` of the source by `content`, keeping
    /// what was inserted around it. Short for `update_with` with the default
    /// options.
    pub fn update(&mut self, start: u32, end: u32, content: &'t str) -> (r: Result<(), UsageError>)
        requires
            old(self).wf(),
        ensures
            final(self).wf(),
            final(self)@.is_partition(),
            r == outcome(old(self)@.range_error(start as int, end as int, true)),
            r is Err ==> *final(self) == *old(self),
            r is Ok ==> final(self)@ == old(self)@.replace(
                start as int,
                end as int,
                content.spec_bytes(),
                false,
                false,
            ),
            r is Ok ==> borrows(final(self).edited_fragment(start as int), content.spec_bytes()),
            final(self).kept_outside(old(self), start as int, end as int),
            final(self).same_inserted(old(self)),
    {
        self.update_with(start, end, content, UpdateOptions::default())
    }

    /// Replaces the range `start..end` of the source by `content`.
    ///
    /// Boundaries are made at both ends of the range. The chunk that starts
    /// at `start` takes the content, and the chunks after it that end before
    /// `end` become empty. The call is refused, and nothing changes, if the
    /// range is empty or inverted, reaches behind the source, or has an end
    /// strictly inside an edited chunk.
    pub fn update_with(
        &mut self,
        start: u32,
        end: u32,
        content: &'t str,
        opts: UpdateOptions,
    ) -> (r: Result<(), UsageError>)
        requires
            old(self).wf(),
        ensures
            final(self).wf(),
            final(self)@.is_partition(),
            r == outcome(old(self)@.range_error(start as int, end as int, true)),
            r is Err ==> *final(self) == *old(self),
            r is Ok ==> final(self)@ == old(self)@.replace(
                start as int,
                end as int,
                content.spec_bytes(),
                opts.overwrite,
                opts.keep_original,
            ),
            r is Ok ==> borrows(final(self).edited_fragment(start as int), content.spec_bytes()),
            final(self).kept_outside(old(self), start as int, end as int),
            final(self).inserted_kept(old(self), start as int, r is Ok && opts.overwrite),
    {
        self.update_with_inner(start, end, TextFragment::borrowed(content), opts, true)
    }

    /// Removes the range `start..end` of the source from the output, with
    /// what was inserted before and after its first chunk.
    ///
    /// An empty range is accepted and changes nothing. The call is refused,
    /// and nothing changes, if the range is inverted, reaches behind the
    /// source, or has an end strictly inside an edited chunk.
    pub fn remove(&mut self, start: u32, end: u32) -> (r: Result<(), UsageError>)
        requires
            old(self).wf(),
        ensures
            final(self).wf(),
            final(self)@.is_partition(),
            r == outcome(old(self)@.range_error(start as int, end as int, false)),
            r is Err || start == end ==> *final(self) == *old(self),
            r is Ok && start < end ==> final(self)@ == old(self)@.replace(
                start as int,
                end as int,
                Seq::empty(),
                true,
                false,
            ),
            r is Ok && start < end ==> borrows(
                final(self).edited_fragment(start as int),
                Seq::empty(),
            ),
            final(self).kept_outside(old(self), start as int, end as int),
            final(self).inserted_kept(old(self), start as int, r is Ok && start < end),
    {
        self.update_with_inner(
            start,
            end,
            TextFragment::empty(),
            UpdateOptions { keep_original: false, overwrite: true },
            false,
        )
    }

    /// Replaces the content of the chunk at `idx` of the store.
    fn edit_chunk(&mut self, idx: usize, content: TextFragment<'t>, opts: EditOptions)
        requires
            old(self).wf(),
            idx < old(self).chunks@.len(),
        ensures
            final(self).wf(),
            final(self).order == old(self).order,
            final(self).place == old(self).place,
            final(self).chunks@.len() == old(self).chunks@.len(),
            final(self)@ == (Document {
                chunks: old(self)@.chunks.update(
                    old(self).place@[idx as int],
                    old(self)@.chunks[old(self).place@[idx as int]].edit(
                        content@,
                        opts.overwrite,
                        opts.store_name,
                    ),
                ),
                ..old(self)@
            }),
            final(self).indent_str == old(self).indent_str,
            final(self).intro == old(self).intro,
            final(self).outro == old(self).outro,
            forall|at: int|
                at != old(self).chunks@[idx as int].start ==> #[trigger] final(self).edited_fragment(at) == old(self).edited_fragment(at),
            final(self).edited_fragment(old(self).chunks@[idx as int].start as int) == Some(
                content,
            ),
            forall|at: int|
                #[trigger] final(self).inserted_before(at) == (if opts.overwrite && at == old(
                    self,
                ).chunks@[idx as int].start {
                    Seq::empty()
                } else {
                    old(self).inserted_before(at)
                }),
            forall|at: int|
                #[trigger] final(self).inserted_behind(at) == (if opts.overwrite && at == old(
                    self,
                ).chunks@[idx as int].end {
                    Seq::empty()
                } else {
                    old(self).inserted_behind(at)
                }),
            forall|at: int| #[trigger] final(self).end_of(at) == old(self).end_of(at),
            final(self).end_of(old(self).chunks@[idx as int].start as int) == old(
                self,
            ).chunks@[idx as int].end,
            forall|j: int|
                0 <= j < old(self).chunks@.len() ==> (#[trigger] final(self).chunks@[j]).start
                    == old(self).chunks@[j].start && final(self).chunks@[j].end == old(
                    self,
                ).chunks@[j].end,
    {
        let ghost before = *self;
        self.chunks[idx].edit(content, opts);
        proof {
            self.lemma_touched(&before, idx as int);
            before.lemma_view_chunk(idx as int);
        }
    }

    /// Gives the chunk at `first` of the store the content `content`, and
    /// empties the chunks that follow it in the list before the chunk at
    /// `last`.
    fn replace_between(
        &mut self,
        first: usize,
        last: usize,
        content: TextFragment<'t>,
        opts: EditOptions,
    )
        requires
            old(self).wf(),
            first < old(self).chunks@.len(),
            last < old(self).chunks@.len(),
            old(self).place@[first as int] <= old(self).place@[last as int],
            old(self).chunks@[first as int].start < old(self).chunks@[last as int].end,
        ensures
            final(self).wf(),
            final(self)@.source == old(self)@.source,
            final(self)@.intro == old(self)@.intro,
            final(self)@.outro == old(self)@.outro,
            final(self)@.chunks == Seq::new(
                old(self)@.chunks.len(),
                |i: int|
                    if i == old(self).place@[first as int] {
                        old(self)@.chunks[i].edit(content@, opts.overwrite, opts.store_name)
                    } else if old(self).place@[first as int] < i < old(self).place@[last as int] {
                        old(self)@.chunks[i].edit(Seq::empty(), false, false)
                    } else {
                        old(self)@.chunks[i]
                    },
            ),
            final(self).indent_str == old(self).indent_str,
            final(self).intro == old(self).intro,
            final(self).outro == old(self).outro,
            final(self).edited_fragment(old(self).chunks@[first as int].start as int) == Some(
                content,
            ),
            forall|at: int|
                at < old(self).chunks@[first as int].start || old(self).chunks@[last as int].end
                    <= at ==> #[trigger] final(self).edited_fragment(at) == old(
                    self,
                ).edited_fragment(at),
            final(self).inserted_kept(
                old(self),
                old(self).chunks@[first as int].start as int,
                opts.overwrite,
            ),
    {
        let ghost mid = *self;
        let ghost lo = mid.place@[first as int];
        let ghost hi = mid.place@[last as int];
        let ghost from = mid.chunks@[first as int].start as int;
        let ghost to = mid.chunks@[last as int].end as int;
        proof {
            mid.lemma_view_chunk(first as int);
            mid.lemma_view_chunk(last as int);
            mid.lemma_wf_partition();
            if lo < hi {
                mid@.lemma_ordered(lo, hi);
            }
        }
        self.edit_chunk(first, content, opts);
        if first == last {
            assert(self@.chunks =~= Seq::new(
                mid@.chunks.len(),
                |i: int|
                    if i == lo {
                        mid@.chunks[i].edit(content@, opts.overwrite, opts.store_name)
                    } else if lo < i < hi {
                        mid@.chunks[i].edit(Seq::empty(), false, false)
                    } else {
                        mid@.chunks[i]
                    },
            ));
            return ;
        }
        proof {
            self.lemma_next_place(first as int);
        }
        let mut rest = self.chunks[first].next.unwrap();
        assert(self@.chunks =~= Seq::new(
            mid@.chunks.len(),
            |i: int|
                if i == lo {
                    mid@.chunks[i].edit(content@, opts.overwrite, opts.store_name)
                } else if lo < i < lo + 1 {
                    mid@.chunks[i].edit(Seq::empty(), false, false)
                } else {
                    mid@.chunks[i]
                },
        ));
        while rest != last
            invariant
                self.wf(),
                self.order == mid.order,
                self.place == mid.place,
                self.chunks@.len() == mid.chunks@.len(),
                self@.chunks.len() == mid@.chunks.len(),
                self@.source == mid@.source,
                self@.intro == mid@.intro,
                self@.outro == mid@.outro,
                rest < self.chunks@.len(),
                last < self.chunks@.len(),
                lo == mid.place@[first as int],
                hi == mid.place@[last as int],
                lo < mid.place@[rest as int] <= hi,
                mid.wf(),
                first < mid.chunks@.len(),
                from == mid.chunks@[first as int].start,
                to == mid.chunks@[last as int].end,
                self.indent_str == mid.indent_str,
                self.intro == mid.intro,
                self.outro == mid.outro,
                forall|j: int|
                    0 <= j < mid.chunks@.len() ==> (#[trigger] self.chunks@[j]).start
                        == mid.chunks@[j].start,
                self.edited_fragment(from) == Some(content),
                forall|at: int|
                    at < from || to <= at ==> #[trigger] self.edited_fragment(at)
                        == mid.edited_fragment(at),
                self.inserted_kept(&mid, from, opts.overwrite),
                self@.chunks == Seq::new(
                    mid@.chunks.len(),
                    |i: int|
                        if i == lo {
                            mid@.chunks[i].edit(content@, opts.overwrite, opts.store_name)
                        } else if lo < i < mid.place@[rest as int] {
                            mid@.chunks[i].edit(Seq::empty(), false, false)
                        } else {
                            mid@.chunks[i]
                        },
                ),
            decreases hi - mid.place@[rest as int],
        {
            let ghost q = mid.place@[rest as int];
            proof {
                self.lemma_same_place(rest as int, last as int);
                self.lemma_view_chunk(rest as int);
                mid.lemma_view_chunk(rest as int);
                mid.lemma_view_chunk(first as int);
                mid.lemma_view_chunk(last as int);
                mid.lemma_wf_partition();
                mid@.lemma_ordered(lo, q);
                mid@.lemma_ordered(q, hi);
                assert(from < self.chunks@[rest as int].start < to);
            }
            let ghost was = *self;
            self.edit_chunk(rest, TextFragment::empty(), EditOptions::default());
            proof {
                assert forall|at: int| at < from || to <= at implies #[trigger]
                    self.edited_fragment(at) == mid.edited_fragment(at) by {
                    assert(was.edited_fragment(at) == mid.edited_fragment(at));
                }
                assert(self.end_of(from) == was.end_of(from));
                assert forall|at: int|
                    self.inserted_before(at) == was.inserted_before(at) && self.inserted_behind(at)
                        == was.inserted_behind(at) by {}
            }
            proof {
                self.lemma_next_place(rest as int);
            }
            rest = self.chunks[rest].next.unwrap();
            proof {
                assert(self@.chunks =~= Seq::new(
                    mid@.chunks.len(),
                    |i: int|
                        if i == lo {
                            mid@.chunks[i].edit(content@, opts.overwrite, opts.store_name)
                        } else if lo < i < q + 1 {
                            mid@.chunks[i].edit(Seq::empty(), false, false)
                        } else {
                            mid@.chunks[i]
                        },
                ));
            }
        }
        proof {
            self.lemma_same_place(rest as int, last as int);
        }
    }

    /// Replaces `start..end` by `content`, or refuses and changes nothing.
    /// An empty range is refused if `reject_empty` is set, and changes
    /// nothing if it is not.
    pub(crate) fn update_with_inner(
        &mut self,
        start: u32,
        end: u32,
        content: TextFragment<'t>,
        opts: UpdateOptions,
        reject_empty: bool,
    ) -> (r: Result<(), UsageError>)
        requires
            old(self).wf(),
        ensures
            final(self).wf(),
            final(self)@.is_partition(),
            r == outcome(old(self)@.range_error(start as int, end as int, reject_empty)),
            r is Err || start == end ==> *final(self) == *old(self),
            r is Ok && start < end ==> final(self)@ == old(self)@.replace(
                start as int,
                end as int,
                content@,
                opts.overwrite,
                opts.keep_original,
            ),
            r is Ok && start < end ==> final(self).edited_fragment(start as int) == Some(content),
            final(self).kept_outside(old(self), start as int, end as int),
            final(self).inserted_kept(
                old(self),
                start as int,
                r is Ok && start < end && opts.overwrite,
            ),
    {
        proof {
            self.lemma_wf_partition();
        }
        if start > end {
            return Err(UsageError::InvertedRange);
        }
        if start == end && reject_empty {
            return Err(UsageError::EmptyRange);
        }
        if end as usize > self.len() {
            return Err(UsageError::OutOfBounds);
        }
        if start == end {
            return Ok(());
        }
        if !self.can_split(start) || !self.can_split(end) {
            return Err(UsageError::EditedChunk);
        }
        proof {
            self.lemma_wf_partition();
            old(self)@.lemma_replace_cuts(start as int, end as int);
        }
        let _ = self.split_at(start);
        let ghost cut = *self;
        let _ = self.split_at(end);
        let ghost mid = *self;
        let (first, last) = self.ends_of(start, end);
        self.replace_between(
            first,
            last,
            content,
            EditOptions { overwrite: opts.overwrite, store_name: opts.keep_original },
        );
        proof {
            mid.lemma_wf_partition();
            mid@.lemma_replaced_chunks(
                self@.chunks,
                mid.place_of(first as int),
                mid.place_of(last as int),
                start as int,
                end as int,
                content@,
                opts.overwrite,
                opts.keep_original,
            );
            self.lemma_wf_partition();
            assert forall|at: int| at < start || end <= at implies #[trigger]
                self.edited_fragment(at) == old(self).edited_fragment(at) by {
                assert(mid.edited_fragment(at) == cut.edited_fragment(at));
                assert(cut.edited_fragment(at) == old(self).edited_fragment(at));
            }
            assert forall|at: int|
                mid.inserted_before(at) == old(self).inserted_before(at) && mid.inserted_behind(at)
                    == old(self).inserted_behind(at) by {
                assert(mid.inserted_before(at) == cut.inserted_before(at));
                assert(mid.inserted_behind(at) == cut.inserted_behind(at));
            }
        }
        Ok(())
    }

    /// The chunk that starts at `start` and the chunk that ends at `end`,
    /// where boundaries lie at both.
    fn ends_of(&self, start: u32, end: u32) -> (r: (usize, usize))
        requires
            self.wf(),
            start < end <= self@.source.len(),
            self@.has_boundary(start as int),
            self@.has_boundary(end as int),
        ensures
            r.0 < self.chunks@.len(),
            r.1 < self.chunks@.len(),
            self.place@[r.0 as int] <= self.place@[r.1 as int],
            0 <= self.place@[r.0 as int],
            self.place@[r.1 as int] < self@.chunks.len(),
            self@.chunks[self.place@[r.0 as int]].start == start,
            self@.chunks[self.place@[r.1 as int]].end == end,
            self.chunks@[r.0 as int].start == start,
            self.chunks@[r.1 as int].end == end,
    {
        proof {
            self.lemma_wf_partition();
            self@.lemma_boundary_sides(start as int);
            self@.lemma_boundary_sides(end as int);
            self.lemma_has_start(start);
            self.lemma_has_end(end);
        }
        let first = self.by_start(start).unwrap();
        let last = self.by_end(end).unwrap();
        proof {
            self.lemma_view_chunk(first as int);
            self.lemma_view_chunk(last as int);
            if self.place@[last as int] < self.place@[first as int] {
                self@.lemma_ordered(self.place@[last as int], self.place@[first as int]);
            }
        }
        (first, last)
    }
}

} // verus!
