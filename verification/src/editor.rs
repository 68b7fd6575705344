use vstd::prelude::*;
use crate::buffer::{
    Anchor, Bias, Buffer, BufferView, Edit, EditSpec, batch_accepted, batch_valid, batch_view,
    lemma_edited, lemma_ordered_in_order, lemma_ordered_twice, lemma_owns_after_edit, ordered,
    shift_batch, sort_edits, track,
};
use crate::display_map::{
    DisplayMap, DisplayPoint, DisplayView, Fold, any_intersects, fold_allowed, intersects,
    lemma_unfold_after_fold,
};
use crate::error::Error;
use crate::selections::{
    Autoscroll, SelectionRange, SelectionSet, SelectionSetView, SelectionsChanged, anchored,
    resolved_all, selection_for, selections_for,
};
use crate::actions::SelectNext;

verus! {

/// What the display is told after an edit: the new revision and the display
/// rows to draw again, first and last, if the edit touched any text.
#[derive(Clone, Copy, PartialEq, Eq, Debug)]
pub struct EditApplied {
    pub revision: u64,
    pub invalidated: Option<(usize, usize)>,
}

/// The fold that the two anchors stand for in the present text.
pub open spec fn fold_of(v: BufferView, pair: (Anchor, Anchor)) -> Fold {
    Fold {
        start: v.resolve(pair.0, v.revision()) as usize,
        end: v.resolve(pair.1, v.revision()) as usize,
    }
}

/// The anchors that keep a fold of the range `start..end` of the present
/// text. They face inward, so that text inserted at either end stays
/// outside the fold.
pub open spec fn fold_anchors(v: BufferView, start: usize, end: usize) -> (Anchor, Anchor) {
    (
        Anchor { buffer_id: v.id, revision: v.revision() as u64, offset: start, bias: Bias::After },
        Anchor { buffer_id: v.id, revision: v.revision() as u64, offset: end, bias: Bias::Before },
    )
}

/// The fold can be put into the mapping.
pub open spec fn fold_fits(m: DisplayView, f: Fold) -> bool {
    fold_allowed(m.text, f.start as int, f.end as int) && !any_intersects(
        m.folds,
        f.start as int,
        f.end as int,
    )
}

/// The mapping in which the pairs of anchors have been folded in order,
/// each where its range can still be folded, together with the pairs that
/// were folded.
pub open spec fn refold(m: DisplayView, v: BufferView, pairs: Seq<(Anchor, Anchor)>) -> (
    DisplayView,
    Seq<(Anchor, Anchor)>,
)
    decreases pairs.len(),
{
    if pairs.len() == 0 {
        (m, pairs)
    } else {
        let had = refold(m, v, pairs.drop_last());
        if fold_fits(had.0, fold_of(v, pairs.last())) {
            (had.0.folded(fold_of(v, pairs.last())), had.1.push(pairs.last()))
        } else {
            had
        }
    }
}

/// Every anchor of the pairs was made by the buffer.
pub open spec fn pairs_owned(v: BufferView, pairs: Seq<(Anchor, Anchor)>) -> bool {
    forall|i: int| 0 <= i < pairs.len() ==> v.owns((#[trigger] pairs[i]).0) && v.owns(pairs[i].1)
}

/// Folding changes neither the text nor the wrap width of a mapping, and
/// folds no more pairs than there are.
pub proof fn lemma_refold_frame(m: DisplayView, v: BufferView, pairs: Seq<(Anchor, Anchor)>)
    ensures
        refold(m, v, pairs).0.text == m.text,
        refold(m, v, pairs).0.wrap == m.wrap,
        refold(m, v, pairs).1.len() <= pairs.len(),
    decreases pairs.len(),
{
    if pairs.len() > 0 {
        lemma_refold_frame(m, v, pairs.drop_last());
    }
}

/// Folding the pairs that were folded folds them all again.
pub proof fn lemma_refold_again(m: DisplayView, v: BufferView, pairs: Seq<(Anchor, Anchor)>)
    ensures
        refold(m, v, refold(m, v, pairs).1) == refold(m, v, pairs),
    decreases pairs.len(),
{
    if pairs.len() > 0 {
        let had = refold(m, v, pairs.drop_last());
        lemma_refold_again(m, v, pairs.drop_last());
        if fold_fits(had.0, fold_of(v, pairs.last())) {
            let kept = had.1.push(pairs.last());
            assert(kept.drop_last() == had.1);
            assert(kept.last() == pairs.last());
        }
    }
}

/// What an editor is: its buffer, its selections, the anchors of its folds,
/// and its display mapping.
pub ghost struct EditorView {
    pub buffer: BufferView,
    pub selections: SelectionSetView,
    pub folds: Seq<(Anchor, Anchor)>,
    pub display: DisplayView,
}

impl EditorView {
    /// The mapping of the present text without folds.
    pub open spec fn plain(self) -> DisplayView {
        DisplayView { text: self.buffer.content(), folds: Seq::empty(), wrap: self.display.wrap }
    }

    /// The buffer is well formed, the selections and folds are anchored in
    /// it, no change of the selections is open, and the display mapping is
    /// that of the present text with every fold of the editor.
    pub open spec fn wf(self) -> bool {
        &&& self.buffer.wf()
        &&& anchored(self.buffer, self.selections.selections)
        &&& !self.selections.mutating
        &&& pairs_owned(self.buffer, self.folds)
        &&& self.display.wf()
        &&& refold(self.plain(), self.buffer, self.folds) == (self.display, self.folds)
    }
}

/// One editing session: a buffer with its selections, its folds and its
/// display mapping, which are kept in step with every edit.
pub struct Editor {
    buffer: Buffer,
    selections: SelectionSet,
    folds: Vec<(Anchor, Anchor)>,
    display: DisplayMap,
}

impl View for Editor {
    type V = EditorView;

    closed spec fn view(&self) -> EditorView {
        EditorView {
            buffer: self.buffer@,
            selections: self.selections@,
            folds: self.folds@,
            display: self.display@,
        }
    }
}

/// The display mapping of the buffer's present text with the folds that the
/// pairs of anchors stand for, and the pairs that could be folded.
fn fold_all(buffer: &Buffer, wrap_width: Option<usize>, pairs: &Vec<(Anchor, Anchor)>) -> (r: (
    DisplayMap,
    Vec<(Anchor, Anchor)>,
))
    requires
        buffer.wf(),
        pairs_owned(buffer@, pairs@),
    ensures
        r.0.wf(),
        (r.0@, r.1@) == refold(
            DisplayView { text: buffer@.content(), folds: Seq::empty(), wrap: wrap_width },
            buffer@,
            pairs@,
        ),
        pairs_owned(buffer@, r.1@),
        r.1@.len() <= pairs@.len(),
{
    let ghost v = buffer@;
    let ghost base = DisplayView { text: v.content(), folds: Seq::empty(), wrap: wrap_width };
    let mut display = DisplayMap::new(buffer.chars().clone(), wrap_width);
    let mut kept: Vec<(Anchor, Anchor)> = Vec::new();
    let mut i: usize = 0;
    proof {
        assert(pairs@.take(0) =~= Seq::empty());
        assert(display@ == base);
    }
    while i < pairs.len()
        invariant
            buffer.wf(),
            v == buffer@,
            pairs_owned(v, pairs@),
            i <= pairs.len(),
            display.wf(),
            base == (DisplayView { text: v.content(), folds: Seq::empty(), wrap: wrap_width }),
            (display@, kept@) == refold(base, v, pairs@.take(i as int)),
            pairs_owned(v, kept@),
            kept@.len() <= i,
        decreases pairs.len() - i,
    {
        let pair = pairs[i];
        proof {
            assert(pairs@.take(i + 1).drop_last() == pairs@.take(i as int));
            assert(pairs@.take(i + 1).last() == pair);
            assert(v.owns(pairs@[i as int].0));
        }
        let start = buffer.offset_of(&pair.0);
        let end = buffer.offset_of(&pair.1);
        assert((Fold { start, end }) == fold_of(v, pair));
        match display.fold(start, end) {
            Ok(_) => {
                kept.push(pair);
            },
            Err(_) => {},
        }
        i += 1;
    }
    proof {
        assert(pairs@.take(i as int) == pairs@);
    }
    (display, kept)
}

impl Editor {
    /// The parts of the editor fit together.
    pub closed spec fn wf(&self) -> bool {
        &&& self@.wf()
        &&& self.buffer.wf()
        &&& self.display.wf()
    }

    /// An editor on the given text, without selections and folds.
    pub fn new(text: &str, wrap_width: Option<usize>) -> (e: Editor)
        ensures
            e.wf(),
            e@.buffer == (BufferView {
                id: 0,
                initial: text@,
                log: Seq::empty(),
                diff_base: None,
            }),
            e@.selections.selections.len() == 0,
            e@.folds.len() == 0,
            e@.display == (DisplayView { text: text@, folds: Seq::empty(), wrap: wrap_width }),
    {
        let buffer = Buffer::new(0, text);
        let display = DisplayMap::new(buffer.chars().clone(), wrap_width);
        Editor { buffer, selections: SelectionSet::new(), folds: Vec::new(), display }
    }

    /// The buffer of the editor.
    pub fn buffer(&self) -> (b: &Buffer)
        requires
            self.wf(),
        ensures
            b@ == self@.buffer,
            b.wf(),
    {
        &self.buffer
    }

    /// The selections of the editor.
    pub fn selections(&self) -> (s: &SelectionSet)
        requires
            self.wf(),
        ensures
            s@ == self@.selections,
            s.anchored_in(self@.buffer),
    {
        &self.selections
    }

    /// The display mapping of the editor.
    pub fn display_map(&self) -> (m: &DisplayMap)
        requires
            self.wf(),
        ensures
            m@ == self@.display,
            m.wf(),
    {
        &self.display
    }

    /// The present text.
    pub fn text(&self) -> (s: String)
        requires
            self.wf(),
        ensures
            s@ == self@.buffer.content(),
    {
        self.buffer.text()
    }

    /// The display cell of an offset of the present text.
    pub fn display_point(&self, offset: usize) -> (pt: DisplayPoint)
        requires
            self.wf(),
        ensures
            pt@ == self@.display.offset_to_display(offset as int),
    {
        self.display.offset_to_display(offset)
    }

    /// Folds the range `start..end` of the present text, as the display
    /// mapping does, and keeps anchors at its ends, so that the fold follows
    /// later edits. A range that intersects a fold is rejected with
    /// `OverlappingFold`; a range that intersects none but cannot be folded
    /// is rejected with `InvalidRange`.
    pub fn fold(&mut self, start: usize, end: usize) -> (r: Result<(), Error>)
        requires
            old(self).wf(),
        ensures
            final(self).wf(),
            match r {
                Ok(_) => {
                    &&& fold_fits(old(self)@.display, Fold { start, end })
                    &&& final(self)@.display == old(self)@.display.folded(Fold { start, end })
                    &&& final(self)@.folds == old(self)@.folds.push(
                        fold_anchors(old(self)@.buffer, start, end),
                    )
                    &&& final(self)@.buffer == old(self)@.buffer
                    &&& final(self)@.selections == old(self)@.selections
                },
                Err(e) => {
                    &&& final(self)@ == old(self)@
                    &&& !fold_fits(old(self)@.display, Fold { start, end })
                    &&& e == Error::InvalidRange || e == Error::OverlappingFold
                    &&& e == Error::OverlappingFold <==> any_intersects(
                        old(self)@.display.folds,
                        start as int,
                        end as int,
                    )
                    &&& e == Error::InvalidRange <==> !any_intersects(
                        old(self)@.display.folds,
                        start as int,
                        end as int,
                    ) && !fold_allowed(old(self)@.display.text, start as int, end as int)
                },
            },
    {
        let ghost before = self@;
        proof {
            lemma_refold_frame(before.plain(), before.buffer, before.folds);
            self.buffer.lemma_wf();
        }
        match self.display.fold(start, end) {
            Err(e) => Err(e),
            Ok(_) => {
                let a = self.buffer.anchor_after(start);
                let b = self.buffer.anchor_before(end);
                self.folds.push((a, b));
                proof {
                    assert(self@.folds.drop_last() == before.folds);
                    assert(self@.folds.last() == (a, b));
                    assert(fold_of(self@.buffer, (a, b)) == (Fold { start, end }));
                    assert(self@.plain() == before.plain());
                }
                Ok(())
            },
        }
    }
}


/// The pairs whose fold in the present text does not intersect `start..end`.
pub open spec fn pairs_outside(
    v: BufferView,
    pairs: Seq<(Anchor, Anchor)>,
    start: int,
    end: int,
) -> Seq<(Anchor, Anchor)>
    decreases pairs.len(),
{
    if pairs.len() == 0 {
        pairs
    } else if intersects(fold_of(v, pairs.last()), start, end) {
        pairs_outside(v, pairs.drop_last(), start, end)
    } else {
        pairs_outside(v, pairs.drop_last(), start, end).push(pairs.last())
    }
}

/// The display rows to draw again after a batch: from the row of the first
/// changed offset to the row behind the row of the last one, which may have
/// taken or given text by wrapping, but not behind the last row. `first` and
/// `last` are the ends of the changed text, as offsets of the new text.
pub open spec fn rows_touched(m: DisplayView, first: int, last: int) -> (usize, usize) {
    let top = m.offset_to_display(first).row;
    let low = m.offset_to_display(last).row;
    let bottom = m.offset_to_display(m.text.len() as int).row;
    (top as usize, (if low < bottom {
        low + 1
    } else {
        bottom
    }) as usize)
}

/// The rows to draw again after the batch was applied to the buffer `v`,
/// where `m` is the display mapping of the new text. An empty batch touches
/// no row.
pub open spec fn invalidated_rows(m: DisplayView, batch: Seq<EditSpec>) -> Option<(usize, usize)> {
    if batch.len() == 0 {
        None
    } else {
        Some(
            rows_touched(
                m,
                shift_batch(batch.first().start, batch, Bias::Before),
                shift_batch(batch.last().end, batch, Bias::After),
            ),
        )
    }
}

/// Folding pairs into a well-formed mapping leaves it well formed.
pub proof fn lemma_refold_wf(m: DisplayView, v: BufferView, pairs: Seq<(Anchor, Anchor)>)
    requires
        m.wf(),
    ensures
        refold(m, v, pairs).0.wf(),
    decreases pairs.len(),
{
    if pairs.len() > 0 {
        let had = refold(m, v, pairs.drop_last());
        lemma_refold_wf(m, v, pairs.drop_last());
        lemma_refold_frame(m, v, pairs.drop_last());
        let f = fold_of(v, pairs.last());
        if fold_fits(had.0, f) {
            lemma_unfold_after_fold(had.0.text, had.0.folds, f, 0, 0);
        }
    }
}

/// Unfolding a range after folding pairs that could all be folded is
/// folding the pairs whose fold does not intersect the range.
pub proof fn lemma_refold_outside(
    m: DisplayView,
    v: BufferView,
    pairs: Seq<(Anchor, Anchor)>,
    start: int,
    end: int,
)
    requires
        m.wf(),
        refold(m, v, pairs).1 == pairs,
    ensures
        refold(m.unfolded(start, end), v, pairs_outside(v, pairs, start, end)) == (
            refold(m, v, pairs).0.unfolded(start, end),
            pairs_outside(v, pairs, start, end),
        ),
    decreases pairs.len(),
{
    if pairs.len() > 0 {
        let rest = pairs.drop_last();
        let last = pairs.last();
        let had = refold(m, v, rest);
        let f = fold_of(v, last);
        lemma_refold_frame(m, v, rest);
        lemma_refold_wf(m, v, rest);
        assert(fold_fits(had.0, f));
        assert(had.1 == rest) by {
            assert(had.1.push(last).drop_last() == had.1);
        }
        lemma_refold_outside(m, v, rest, start, end);
        lemma_unfold_after_fold(had.0.text, had.0.folds, f, start, end);
        let outside = pairs_outside(v, rest, start, end);
        if !intersects(f, start, end) {
            let more = outside.push(last);
            assert(more.drop_last() == outside);
            assert(more.last() == last);
            lemma_refold_frame(m.unfolded(start, end), v, outside);
        }
    }
}

impl Editor {
    /// Applies a batch of edits to the buffer, as the buffer does, and
    /// brings the display mapping up to date: the folds follow their anchors,
    /// and a fold whose range can no longer be folded is given up. The
    /// selections follow their anchors by themselves. The result names the
    /// display rows to draw again.
    pub fn edit(&mut self, edits: Vec<Edit>) -> (r: Result<EditApplied, Error>)
        requires
            old(self).wf(),
        ensures
            final(self).wf(),
            match r {
                Ok(applied) => {
                    &&& batch_accepted(
                        batch_view(edits@),
                        old(self)@.buffer.content().len() as int,
                    )
                    &&& final(self)@.buffer == old(self)@.buffer.edited(
                        ordered(batch_view(edits@)),
                    )
                    &&& final(self)@.selections == old(self)@.selections
                    &&& final(self)@.display.wrap == old(self)@.display.wrap
                    &&& (final(self)@.display, final(self)@.folds) == refold(
                        final(self)@.plain(),
                        final(self)@.buffer,
                        old(self)@.folds,
                    )
                    &&& applied.revision == final(self)@.buffer.revision()
                    &&& applied.invalidated == invalidated_rows(
                        final(self)@.display,
                        ordered(batch_view(edits@)),
                    )
                },
                Err(e) => {
                    &&& e == Error::InvalidRange
                    &&& !batch_accepted(
                        batch_view(edits@),
                        old(self)@.buffer.content().len() as int,
                    )
                    &&& final(self)@ == old(self)@
                },
            },
    {
        let ghost before = self@;
        let ghost given = batch_view(edits@);
        let edits = sort_edits(edits);
        let ghost batch = batch_view(edits@);
        proof {
            self.buffer.lemma_wf();
            lemma_refold_frame(before.plain(), before.buffer, before.folds);
            lemma_ordered_twice(given);
        }
        let ends = if edits.len() > 0 {
            Some(
                (
                    self.buffer.anchor_before(edits[0].start),
                    self.buffer.anchor_after(edits[edits.len() - 1].end),
                ),
            )
        } else {
            None
        };
        let wrap_width = self.display.wrap_width();
        match self.buffer.edit(edits) {
            Err(e) => Err(e),
            Ok(revision) => {
                let ghost v = self.buffer@;
                proof {
                    lemma_edited(before.buffer, batch);
                    assert forall|i: int| 0 <= i < before.folds.len() implies v.owns(
                        (#[trigger] before.folds[i]).0,
                    ) && v.owns(before.folds[i].1) by {
                        lemma_owns_after_edit(before.buffer, batch, before.folds[i].0);
                        lemma_owns_after_edit(before.buffer, batch, before.folds[i].1);
                    }
                    assert forall|i: int| 0 <= i < before.selections.selections.len() implies v.owns(
                        (#[trigger] before.selections.selections[i]).start,
                    ) && v.owns(before.selections.selections[i].end) by {
                        lemma_owns_after_edit(
                            before.buffer,
                            batch,
                            before.selections.selections[i].start,
                        );
                        lemma_owns_after_edit(
                            before.buffer,
                            batch,
                            before.selections.selections[i].end,
                        );
                    }
                }
                let (display, kept) = fold_all(&self.buffer, wrap_width, &self.folds);
                self.display = display;
                self.folds = kept;
                proof {
                    let base = DisplayView {
                        text: v.content(),
                        folds: Seq::empty(),
                        wrap: wrap_width,
                    };
                    lemma_refold_frame(base, v, before.folds);
                    assert(self@.plain() == base);
                    lemma_refold_again(base, v, before.folds);
                }
                let invalidated = match ends {
                    Some((first, last)) => {
                        proof {
                            assert(batch[0] == edits@[0]@);
                            assert(batch[batch.len() - 1] == edits@[edits@.len() - 1]@);
                            assert(batch_valid(batch, before.buffer.content().len() as int));
                            assert(crate::buffer::edit_fits(
                                batch[0],
                                before.buffer.content().len() as int,
                            ));
                            assert(crate::buffer::edit_fits(
                                batch[batch.len() - 1],
                                before.buffer.content().len() as int,
                            ));
                            lemma_owns_after_edit(before.buffer, batch, first);
                            lemma_owns_after_edit(before.buffer, batch, last);
                            let seg = v.log.subrange(before.buffer.revision(), v.revision());
                            assert(seg =~= seq![batch]);
                            assert(seg.drop_last() =~= Seq::<Seq<EditSpec>>::empty());
                            assert(seg.last() == batch);
                            assert(track(first.offset as int, seg, Bias::Before) == shift_batch(
                                first.offset as int,
                                batch,
                                Bias::Before,
                            )) by {
                                reveal_with_fuel(track, 2);
                            }
                            assert(track(last.offset as int, seg, Bias::After) == shift_batch(
                                last.offset as int,
                                batch,
                                Bias::After,
                            )) by {
                                reveal_with_fuel(track, 2);
                            }
                        }
                        let lo = self.buffer.offset_of(&first);
                        let hi = self.buffer.offset_of(&last);
                        let top = self.display.offset_to_display(lo).row;
                        let low = self.display.offset_to_display(hi).row;
                        let bottom = self.display.offset_to_display(self.buffer.len()).row;
                        Some(
                            (
                                top,
                                if low < bottom {
                                    low + 1
                                } else {
                                    bottom
                                },
                            ),
                        )
                    },
                    None => None,
                };
                Ok(EditApplied { revision, invalidated })
            },
        }
    }

    /// Replaces the whole text. Every fold is given up with the text it
    /// covered.
    pub fn set_text(&mut self, text: &str) -> (applied: EditApplied)
        requires
            old(self).wf(),
        ensures
            final(self).wf(),
            final(self)@.buffer == old(self)@.buffer.edited(
                seq![
                    EditSpec {
                        start: 0,
                        end: old(self)@.buffer.content().len() as int,
                        text: text@,
                    },
                ],
            ),
            final(self)@.buffer.content() == text@,
            final(self)@.selections == old(self)@.selections,
            final(self)@.display.wrap == old(self)@.display.wrap,
            (final(self)@.display, final(self)@.folds) == refold(
                final(self)@.plain(),
                final(self)@.buffer,
                old(self)@.folds,
            ),
            applied.revision == final(self)@.buffer.revision(),
            applied.invalidated == invalidated_rows(
                final(self)@.display,
                seq![
                    EditSpec {
                        start: 0,
                        end: old(self)@.buffer.content().len() as int,
                        text: text@,
                    },
                ],
            ),
    {
        let ghost before = self@;
        proof {
            self.buffer.lemma_wf();
        }
        let whole = Edit { start: 0, end: self.buffer.len(), text: crate::text::chars_of(text) };
        let mut edits: Vec<Edit> = Vec::new();
        edits.push(whole);
        let ghost batch = batch_view(edits@);
        proof {
            assert(batch =~= seq![whole@]);
            assert(batch.drop_last() =~= Seq::<EditSpec>::empty());
            assert(batch.last() == whole@);
            assert(crate::buffer::apply_batch(before.buffer.content(), batch)
                == crate::buffer::apply_one(before.buffer.content(), whole@)) by {
                reveal_with_fuel(crate::buffer::apply_batch, 2);
            }
            assert(crate::buffer::apply_one(before.buffer.content(), whole@) =~= text@);
            assert(batch_valid(batch, before.buffer.content().len() as int));
            lemma_ordered_in_order(batch, before.buffer.content().len() as int);
            lemma_edited(before.buffer, batch);
        }
        match self.edit(edits) {
            Ok(applied) => applied,
            Err(_) => {
                proof {
                    assert(false);
                }
                EditApplied { revision: 0, invalidated: None }
            },
        }
    }

    /// Unfolds the range `start..end`: gives up every fold that intersects
    /// it in the present text, and returns how many folds were given up.
    pub fn unfold(&mut self, start: usize, end: usize) -> (removed: usize)
        requires
            old(self).wf(),
        ensures
            final(self).wf(),
            final(self)@.buffer == old(self)@.buffer,
            final(self)@.selections == old(self)@.selections,
            final(self)@.display == old(self)@.display.unfolded(start as int, end as int),
            final(self)@.folds == pairs_outside(
                old(self)@.buffer,
                old(self)@.folds,
                start as int,
                end as int,
            ),
            removed == old(self)@.folds.len() - final(self)@.folds.len(),
    {
        let ghost before = self@;
        let ghost v = self.buffer@;
        proof {
            lemma_refold_frame(before.plain(), before.buffer, before.folds);
        }
        let mut outside: Vec<(Anchor, Anchor)> = Vec::new();
        let mut i: usize = 0;
        proof {
            assert(before.folds.take(0) =~= Seq::empty());
        }
        while i < self.folds.len()
            invariant
                *self == *old(self),
                self.wf(),
                before == self@,
                v == self.buffer@,
                i <= self.folds.len(),
                outside@ == pairs_outside(v, before.folds.take(i as int), start as int, end as int),
                outside@.len() <= i,
                pairs_owned(v, outside@),
            decreases self.folds.len() - i,
        {
            let pair = self.folds[i];
            proof {
                assert(before.folds.take(i + 1).drop_last() == before.folds.take(i as int));
                assert(before.folds.take(i + 1).last() == pair);
                assert(v.owns(before.folds[i as int].0));
            }
            let from = self.buffer.offset_of(&pair.0);
            let to = self.buffer.offset_of(&pair.1);
            assert((Fold { start: from, end: to }) == fold_of(v, pair));
            if !(from < end && start < to) {
                outside.push(pair);
            }
            i += 1;
        }
        proof {
            assert(before.folds.take(i as int) == before.folds);
        }
        let had: usize = self.folds.len();
        let (display, kept) = fold_all(&self.buffer, self.display.wrap_width(), &outside);
        self.display = display;
        self.folds = kept;
        proof {
            lemma_refold_frame(before.plain(), v, outside@);
            assert(self@.plain() == before.plain());
            lemma_refold_again(before.plain(), v, outside@);
            assert(before.plain().unfolded(start as int, end as int) == before.plain());
            lemma_refold_outside(before.plain(), v, before.folds, start as int, end as int);
        }
        had - self.folds.len()
    }
}


/// The selection as a range with a direction: from its tail to its head.
pub open spec fn directed(r: SelectionRange) -> (usize, usize) {
    if r.reversed {
        (r.end, r.start)
    } else {
        (r.start, r.end)
    }
}

/// The selections as directed ranges of the present text, in ascending
/// order of their ids.
pub open spec fn directed_all(v: EditorView) -> Seq<(usize, usize)> {
    Seq::new(
        v.selections.selections.len(),
        |i: int| directed(resolved_all(v.buffer, v.selections.selections)[i]),
    )
}

impl Editor {
    /// Replaces the selections by one for each range, in one change. A
    /// range whose first offset lies behind its second is a reversed
    /// selection. The result is the notification of the change, if the set
    /// has changed.
    pub fn select_ranges(&mut self, autoscroll: Option<Autoscroll>, ranges: &Vec<(usize, usize)>) -> (note:
        Option<SelectionsChanged>)
        requires
            old(self).wf(),
        ensures
            final(self).wf(),
            final(self)@.buffer == old(self)@.buffer,
            final(self)@.folds == old(self)@.folds,
            final(self)@.display == old(self)@.display,
            final(self)@.selections.selections == selections_for(old(self)@.buffer, ranges@),
            final(self)@.selections.next_id == ranges@.len(),
            note is None <==> final(self)@.selections.selections
                == old(self)@.selections.selections,
            note is Some ==> note->0.autoscroll == autoscroll && note->0.selections@
                == resolved_all(final(self)@.buffer, final(self)@.selections.selections),
    {
        match self.selections.begin_change(&self.buffer) {
            Ok(handle) => {
                let handle = handle.select_ranges(ranges);
                self.selections.commit(handle, autoscroll)
            },
            Err(_) => {
                proof {
                    assert(false);
                }
                None
            },
        }
    }

    /// Selects one more range as the action says: in place of the newest
    /// selection where the action asks to replace it, as a new selection
    /// otherwise. Where no id is left for a new selection, nothing is
    /// selected and the result is `None`.
    pub fn select_next(&mut self, action: &SelectNext, start: usize, end: usize) -> (note: Option<
        SelectionsChanged,
    >)
        requires
            old(self).wf(),
        ensures
            final(self).wf(),
            final(self)@.buffer == old(self)@.buffer,
            final(self)@.folds == old(self)@.folds,
            final(self)@.display == old(self)@.display,
            ({
                let had = old(self)@.selections.selections;
                let fresh_id = if action.replace_newest && had.len() > 0 {
                    had.last().id
                } else {
                    old(self)@.selections.next_id
                };
                let fresh = selection_for(old(self)@.buffer, fresh_id, start as int, end as int);
                final(self)@.selections.selections == if action.replace_newest && had.len() > 0 {
                    had.update(had.len() - 1, fresh)
                } else if old(self)@.selections.next_id < u64::MAX {
                    had.push(fresh)
                } else {
                    had
                }
            }),
            note is None <==> final(self)@.selections.selections
                == old(self)@.selections.selections,
            note is Some ==> note->0.autoscroll == Some(Autoscroll::Newest) && note->0.selections@
                == resolved_all(final(self)@.buffer, final(self)@.selections.selections),
    {
        match self.selections.begin_change(&self.buffer) {
            Ok(handle) => {
                let handle = if (action.replace_newest && handle.count() > 0)
                    || handle.has_id_left() {
                    handle.select_next(start, end, action.replace_newest)
                } else {
                    handle
                };
                self.selections.commit(handle, Some(Autoscroll::Newest))
            },
            Err(_) => {
                proof {
                    assert(false);
                }
                None
            },
        }
    }

    /// Sets the text and the selections, as a test does before it acts on
    /// the editor. The text is replaced by one edit of the buffer, which
    /// keeps its identity and its log, so that earlier anchors still
    /// resolve; the folds follow that edit as they follow any other. Then
    /// the selections are replaced in one change. That change is notified
    /// once, with every new selection, unless there was no selection before
    /// and none is given.
    pub fn set_state(&mut self, text: &str, ranges: &Vec<(usize, usize)>) -> (note: Option<
        SelectionsChanged,
    >)
        requires
            old(self).wf(),
        ensures
            final(self).wf(),
            final(self)@.buffer == old(self)@.buffer.edited(
                seq![
                    EditSpec {
                        start: 0,
                        end: old(self)@.buffer.content().len() as int,
                        text: text@,
                    },
                ],
            ),
            final(self)@.buffer.content() == text@,
            final(self)@.display.wrap == old(self)@.display.wrap,
            (final(self)@.display, final(self)@.folds) == refold(
                final(self)@.plain(),
                final(self)@.buffer,
                old(self)@.folds,
            ),
            final(self)@.selections.selections == selections_for(final(self)@.buffer, ranges@),
            final(self)@.selections.next_id == ranges@.len(),
            note is None <==> ranges@.len() == 0 && old(self)@.selections.selections.len() == 0,
            note is None <==> final(self)@.selections.selections
                == old(self)@.selections.selections,
            note is Some ==> note->0.autoscroll == Some(Autoscroll::Fit) && note->0.selections@
                == resolved_all(final(self)@.buffer, final(self)@.selections.selections),
    {
        let ghost before = self@;
        let _applied = self.set_text(text);
        proof {
            self.buffer.lemma_wf();
            let fresh = selections_for(self@.buffer, ranges@);
            let had = before.selections.selections;
            if ranges@.len() == 0 && had.len() == 0 {
                assert(fresh =~= had);
            }
            if fresh == had && had.len() > 0 {
                assert(before.buffer.owns(had[0].start));
                assert(fresh[0].start.revision == self@.buffer.revision() as u64);
            }
        }
        self.select_ranges(Some(Autoscroll::Fit), ranges)
    }

    /// The selections as directed ranges of the present text: a reversed
    /// selection runs from its end to its start.
    pub fn selection_ranges(&self) -> (out: Vec<(usize, usize)>)
        requires
            self.wf(),
        ensures
            out@ == directed_all(self@),
    {
        let resolved = self.selections.resolved(&self.buffer);
        let mut out: Vec<(usize, usize)> = Vec::new();
        let mut i: usize = 0;
        while i < resolved.len()
            invariant
                i <= resolved.len(),
                resolved@ == resolved_all(self@.buffer, self@.selections.selections),
                out@.len() == i,
                forall|k: int| 0 <= k < i ==> (#[trigger] out@[k]) == directed(resolved@[k]),
            decreases resolved.len() - i,
        {
            let r = resolved[i];
            out.push(if r.reversed {
                (r.end, r.start)
            } else {
                (r.start, r.end)
            });
            i += 1;
        }
        assert(out@ =~= directed_all(self@));
        out
    }

    /// Whether the selections are exactly the expected directed ranges, in
    /// ascending order of their ids.
    pub fn selections_match(&self, expected: &Vec<(usize, usize)>) -> (r: bool)
        requires
            self.wf(),
        ensures
            r == (expected@ == directed_all(self@)),
    {
        let actual = self.selection_ranges();
        if actual.len() != expected.len() {
            return false;
        }
        let mut i: usize = 0;
        while i < actual.len()
            invariant
                i <= actual.len(),
                actual.len() == expected.len(),
                actual@ == directed_all(self@),
                forall|k: int| 0 <= k < i ==> actual@[k] == expected@[k],
            decreases actual.len() - i,
        {
            if actual[i].0 != expected[i].0 || actual[i].1 != expected[i].1 {
                assert(actual@[i as int] != expected@[i as int]);
                return false;
            }
            i += 1;
        }
        assert(actual@ =~= expected@);
        true
    }

    /// The text that the newest selection covers, if there is a selection.
    pub fn newest_selection_text(&self) -> (r: Option<String>)
        requires
            self.wf(),
        ensures
            r is None <==> self@.selections.selections.len() == 0,
            r is Some ==> {
                let newest = resolved_all(self@.buffer, self@.selections.selections).last();
                r->0@ == self@.buffer.content().subrange(newest.start as int, newest.end as int)
            },
    {
        let resolved = self.selections.resolved(&self.buffer);
        let n: usize = resolved.len();
        if n == 0 {
            return None;
        }
        let newest = resolved[n - 1];
        proof {
            self.buffer.lemma_wf();
            let sels = self@.selections.selections;
            assert(self@.buffer.owns(sels[n - 1].start));
            assert(self@.buffer.owns(sels[n - 1].end));
            crate::buffer::lemma_track_in_bounds(
                self@.buffer,
                sels[n - 1].end.revision as int,
                self@.buffer.revision(),
                sels[n - 1].end.offset as int,
                sels[n - 1].end.bias,
            );
            crate::buffer::lemma_track_in_bounds(
                self@.buffer,
                sels[n - 1].start.revision as int,
                self@.buffer.revision(),
                sels[n - 1].start.offset as int,
                sels[n - 1].start.bias,
            );
            assert(self@.buffer.log.take(self@.buffer.revision()) == self@.buffer.log);
        }
        let source = self.buffer.chars();
        let mut out = String::new();
        let mut k: usize = newest.start;
        while k < newest.end
            invariant
                newest.start <= k <= newest.end <= source@.len(),
                out@ == source@.subrange(newest.start as int, k as int),
            decreases newest.end - k,
        {
            out.push(source[k]);
            k += 1;
            assert(source@.subrange(newest.start as int, k as int) == source@.subrange(
                newest.start as int,
                k - 1,
            ).push(source@[k - 1]));
        }
        Some(out)
    }
}

} // verus!
