use vstd::prelude::*;
use crate::buffer::{Anchor, Bias, Buffer, BufferView};
use crate::error::Error;

verus! {

/// One selection: a range between two anchors. `reversed` says that the
/// head of the selection is at the start of the range.
#[derive(Clone, Copy, PartialEq, Eq, Structural, Debug)]
pub struct Selection {
    pub id: u64,
    pub start: Anchor,
    pub end: Anchor,
    pub reversed: bool,
}

/// A selection as offsets of the present text.
#[derive(Clone, Copy, PartialEq, Eq, Structural, Debug)]
pub struct SelectionRange {
    pub id: u64,
    pub start: usize,
    pub end: usize,
    pub reversed: bool,
}

/// How the view should follow the selections after a change.
#[derive(Clone, Copy, PartialEq, Eq, Structural, Debug)]
pub enum Autoscroll {
    /// Scroll as little as needed to show the selections.
    Fit,
    /// Scroll to the newest selection.
    Newest,
    /// Put the newest selection in the middle of the view.
    Center,
}

/// The one notification of a finished change: the hint that came with the
/// change, and every selection of the new set as offsets.
#[derive(Clone, Debug, PartialEq, Eq)]
pub struct SelectionsChanged {
    pub autoscroll: Option<Autoscroll>,
    pub selections: Vec<SelectionRange>,
}

/// `o`, or the length where `o` lies behind the text.
pub open spec fn clamped(o: int, len: int) -> int {
    if o <= len {
        o
    } else {
        len
    }
}

/// The selection that the offsets `a` and `b` name in the present text of
/// the buffer. Offsets behind the text count as its end. With `a > b` the
/// selection is reversed. A cursor has both anchors in front of text
/// inserted at it; a range has its anchors facing inward, so that text
/// inserted at either end stays outside.
pub open spec fn selection_for(v: BufferView, id: u64, a: int, b: int) -> Selection {
    let len = v.content().len() as int;
    let lo = clamped(if a <= b { a } else { b }, len);
    let hi = clamped(if a <= b { b } else { a }, len);
    Selection {
        id,
        start: Anchor {
            buffer_id: v.id,
            revision: v.revision() as u64,
            offset: lo as usize,
            bias: if lo == hi {
                Bias::Before
            } else {
                Bias::After
            },
        },
        end: Anchor {
            buffer_id: v.id,
            revision: v.revision() as u64,
            offset: hi as usize,
            bias: Bias::Before,
        },
        reversed: a > b,
    }
}

/// The ids ascend and lie below `next_id`.
pub open spec fn ids_wf(sels: Seq<Selection>, next_id: u64) -> bool {
    &&& forall|i: int, j: int|
        0 <= i < j < sels.len() ==> (#[trigger] sels[i]).id < (#[trigger] sels[j]).id
    &&& forall|i: int| 0 <= i < sels.len() ==> (#[trigger] sels[i]).id < next_id
}

/// Every anchor of the selections was made by the buffer.
pub open spec fn anchored(v: BufferView, sels: Seq<Selection>) -> bool {
    forall|i: int|
        0 <= i < sels.len() ==> v.owns((#[trigger] sels[i]).start) && v.owns(sels[i].end)
}

/// The selection as offsets of the present text. Where an edit has replaced
/// the whole range, both offsets are the resolved end.
pub open spec fn resolved_one(v: BufferView, s: Selection) -> SelectionRange {
    let start = v.resolve(s.start, v.revision());
    let end = v.resolve(s.end, v.revision());
    SelectionRange {
        id: s.id,
        start: (if start <= end {
            start
        } else {
            end
        }) as usize,
        end: end as usize,
        reversed: s.reversed,
    }
}

/// All selections as offsets of the present text, in their order.
pub open spec fn resolved_all(v: BufferView, sels: Seq<Selection>) -> Seq<SelectionRange> {
    Seq::new(sels.len(), |i: int| resolved_one(v, sels[i]))
}

/// The selections for the given ranges, numbered from 0 in the order given.
pub open spec fn selections_for(v: BufferView, ranges: Seq<(usize, usize)>) -> Seq<Selection> {
    Seq::new(ranges.len(), |i: int| selection_for(v, i as u64, ranges[i].0 as int, ranges[i].1 as int))
}

/// The selections without the one that has the given id.
pub open spec fn without_id(sels: Seq<Selection>, id: u64) -> Seq<Selection>
    decreases sels.len(),
{
    if sels.len() == 0 {
        sels
    } else if sels.last().id == id {
        without_id(sels.drop_last(), id)
    } else {
        without_id(sels.drop_last(), id).push(sels.last())
    }
}

/// The selections with `fresh` in place of the one that has its id.
pub open spec fn with_replaced(sels: Seq<Selection>, fresh: Selection) -> Seq<Selection> {
    Seq::new(sels.len(), |i: int| if sels[i].id == fresh.id { fresh } else { sels[i] })
}

/// Makes the selection that two offsets name in the present text.
fn make_selection(buffer: &Buffer, id: u64, a: usize, b: usize) -> (s: Selection)
    requires
        buffer.wf(),
    ensures
        s == selection_for(buffer@, id, a as int, b as int),
        buffer@.owns(s.start),
        buffer@.owns(s.end),
{
    proof {
        buffer.lemma_wf();
    }
    let len: usize = buffer.len();
    let lo_raw: usize = if a <= b { a } else { b };
    let hi_raw: usize = if a <= b { b } else { a };
    let lo: usize = if lo_raw <= len { lo_raw } else { len };
    let hi: usize = if hi_raw <= len { hi_raw } else { len };
    let start = if lo == hi {
        buffer.anchor_before(lo)
    } else {
        buffer.anchor_after(lo)
    };
    let end = buffer.anchor_before(hi);
    Selection { id, start, end, reversed: a > b }
}

/// The working copy of a selection set while a change is open. The change
/// is made by calls on this handle; the set itself is touched only when the
/// change is committed.
pub struct MutableSelections<'a> {
    buffer: &'a Buffer,
    working: Vec<Selection>,
    next_id: u64,
}

impl<'a> MutableSelections<'a> {
    /// The ids ascend, and every anchor was made by the buffer.
    #[verifier::type_invariant]
    spec fn inv(self) -> bool {
        &&& self.buffer.wf()
        &&& ids_wf(self.working@, self.next_id)
        &&& anchored(self.buffer@, self.working@)
    }

    /// The selections of the working copy, in ascending order of their ids.
    pub closed spec fn selections(self) -> Seq<Selection> {
        self.working@
    }

    /// The id that the next added selection gets.
    pub closed spec fn next_id(self) -> u64 {
        self.next_id
    }

    /// The buffer in which the selections are made.
    pub closed spec fn buffer(self) -> BufferView {
        self.buffer@
    }

    /// Whether the handle has an id left for one more selection.
    pub fn has_id_left(&self) -> (r: bool)
        ensures
            r == (self.next_id() < u64::MAX),
    {
        self.next_id < u64::MAX
    }

    /// The number of selections of the working copy.
    pub fn count(&self) -> (n: usize)
        ensures
            n == self.selections().len(),
    {
        self.working.len()
    }

    /// Replaces the whole set by one selection for each range, numbered
    /// from 0 in the order given, so that the last one is the newest.
    pub fn select_ranges(self, ranges: &Vec<(usize, usize)>) -> (r: Self)
        ensures
            r.buffer() == self.buffer(),
            r.selections() == selections_for(self.buffer(), ranges@),
            r.next_id() == ranges@.len(),
    {
        proof {
            use_type_invariant(&self);
        }
        let buffer = self.buffer;
        let mut working: Vec<Selection> = Vec::new();
        let mut i: usize = 0;
        while i < ranges.len()
            invariant
                buffer.wf(),
                i <= ranges.len(),
                working@.len() == i,
                forall|k: int|
                    0 <= k < i ==> (#[trigger] working@[k]) == selection_for(
                        buffer@,
                        k as u64,
                        ranges@[k].0 as int,
                        ranges@[k].1 as int,
                    ),
                anchored(buffer@, working@),
            decreases ranges.len() - i,
        {
            let s = make_selection(buffer, i as u64, ranges[i].0, ranges[i].1);
            working.push(s);
            i += 1;
        }
        assert(working@ =~= selections_for(buffer@, ranges@));
        MutableSelections { buffer, working, next_id: ranges.len() as u64 }
    }

    /// Adds a selection for the range. It gets the next id and so becomes
    /// the newest.
    pub fn add(self, start: usize, end: usize) -> (r: Self)
        requires
            self.next_id() < u64::MAX,
        ensures
            r.buffer() == self.buffer(),
            r.selections() == self.selections().push(
                selection_for(self.buffer(), self.next_id(), start as int, end as int),
            ),
            r.next_id() == self.next_id() + 1,
    {
        proof {
            use_type_invariant(&self);
        }
        let s = make_selection(self.buffer, self.next_id, start, end);
        let mut working = self.working;
        working.push(s);
        MutableSelections { buffer: self.buffer, working, next_id: self.next_id + 1 }
    }

    /// Puts the range in place of the newest selection's range. The newest
    /// selection keeps its id, and the number of selections stays. An empty
    /// set gets the range as its first selection.
    pub fn replace_newest(self, start: usize, end: usize) -> (r: Self)
        requires
            self.selections().len() == 0 ==> self.next_id() < u64::MAX,
        ensures
            r.buffer() == self.buffer(),
            self.selections().len() == 0 ==> r.selections() == seq![
                selection_for(self.buffer(), self.next_id(), start as int, end as int),
            ] && r.next_id() == self.next_id() + 1,
            self.selections().len() > 0 ==> r.selections() == self.selections().update(
                self.selections().len() - 1,
                selection_for(self.buffer(), self.selections().last().id, start as int, end as int),
            ) && r.next_id() == self.next_id(),
    {
        proof {
            use_type_invariant(&self);
        }
        let n: usize = self.working.len();
        if n == 0 {
            let ghost before = self.working@;
            let r = self.add(start, end);
            assert(before.push(selection_for(r.buffer(), self.next_id, start as int, end as int))
                =~= seq![selection_for(r.buffer(), self.next_id, start as int, end as int)]);
            return r;
        }
        let id: u64 = self.working[n - 1].id;
        let s = make_selection(self.buffer, id, start, end);
        let mut working = self.working;
        working.set(n - 1, s);
        MutableSelections { buffer: self.buffer, working, next_id: self.next_id }
    }

    /// Selects one more range: in place of the newest selection where
    /// `replace_newest` is set, as a new selection otherwise.
    pub fn select_next(self, start: usize, end: usize, replace_newest: bool) -> (r: Self)
        requires
            !replace_newest || self.selections().len() == 0 ==> self.next_id() < u64::MAX,
        ensures
            r.buffer() == self.buffer(),
            replace_newest && self.selections().len() > 0 ==> r.selections()
                == self.selections().update(
                self.selections().len() - 1,
                selection_for(self.buffer(), self.selections().last().id, start as int, end as int),
            ) && r.next_id() == self.next_id(),
            !replace_newest || self.selections().len() == 0 ==> r.selections()
                == self.selections().push(
                selection_for(self.buffer(), self.next_id(), start as int, end as int),
            ) && r.next_id() == self.next_id() + 1,
    {
        if replace_newest {
            let ghost before = self.selections();
            let ghost fresh = selection_for(self.buffer(), self.next_id(), start as int, end as int);
            assert(before.len() == 0 ==> before.push(fresh) =~= seq![fresh]);
            self.replace_newest(start, end)
        } else {
            self.add(start, end)
        }
    }

    /// Removes every selection.
    pub fn clear(self) -> (r: Self)
        ensures
            r.buffer() == self.buffer(),
            r.selections() == Seq::<Selection>::empty(),
            r.next_id() == self.next_id(),
    {
        proof {
            use_type_invariant(&self);
        }
        MutableSelections { buffer: self.buffer, working: Vec::new(), next_id: self.next_id }
    }
}


/// Two selections cover the same range of the present text.
pub open spec fn same_range(v: BufferView, a: Selection, b: Selection) -> bool {
    resolved_one(v, a).start == resolved_one(v, b).start && resolved_one(v, a).end == resolved_one(
        v,
        b,
    ).end
}

/// An older selection covers the same range as the one at index `i`.
pub open spec fn duplicates_older(v: BufferView, sels: Seq<Selection>, i: int) -> bool {
    exists|j: int| 0 <= j < i && same_range(v, #[trigger] sels[j], sels[i])
}

/// The selections without those whose range an older selection covers too.
pub open spec fn merged(v: BufferView, sels: Seq<Selection>) -> Seq<Selection>
    decreases sels.len(),
{
    if sels.len() == 0 {
        sels
    } else if duplicates_older(v, sels, sels.len() - 1) {
        merged(v, sels.drop_last())
    } else {
        merged(v, sels.drop_last()).push(sels.last())
    }
}

/// The selection as offsets of the present text.
fn resolve_selection(buffer: &Buffer, s: &Selection) -> (r: SelectionRange)
    requires
        buffer.wf(),
        buffer@.owns(s.start),
        buffer@.owns(s.end),
    ensures
        r == resolved_one(buffer@, *s),
        r.start <= r.end <= buffer@.content().len(),
{
    let start = buffer.offset_of(&s.start);
    let end = buffer.offset_of(&s.end);
    SelectionRange {
        id: s.id,
        start: if start <= end {
            start
        } else {
            end
        },
        end,
        reversed: s.reversed,
    }
}

/// All selections as offsets of the present text.
fn resolve_selections(buffer: &Buffer, sels: &Vec<Selection>) -> (out: Vec<SelectionRange>)
    requires
        buffer.wf(),
        anchored(buffer@, sels@),
    ensures
        out@ == resolved_all(buffer@, sels@),
{
    let mut out: Vec<SelectionRange> = Vec::new();
    let mut i: usize = 0;
    while i < sels.len()
        invariant
            buffer.wf(),
            anchored(buffer@, sels@),
            i <= sels.len(),
            out@.len() == i,
            forall|k: int| 0 <= k < i ==> (#[trigger] out@[k]) == resolved_one(buffer@, sels@[k]),
        decreases sels.len() - i,
    {
        assert(buffer@.owns(sels@[i as int].start));
        out.push(resolve_selection(buffer, &sels[i]));
        i += 1;
    }
    assert(out@ =~= resolved_all(buffer@, sels@));
    out
}

impl<'a> MutableSelections<'a> {
    /// Removes the selection with the given id, if there is one.
    pub fn remove(self, id: u64) -> (r: Self)
        ensures
            r.buffer() == self.buffer(),
            r.selections() == without_id(self.selections(), id),
            r.next_id() == self.next_id(),
    {
        proof {
            use_type_invariant(&self);
        }
        let buffer = self.buffer;
        let next_id = self.next_id;
        let old_sels = self.working;
        let mut kept: Vec<Selection> = Vec::new();
        let mut i: usize = 0;
        proof {
            assert(old_sels@.take(0) =~= Seq::empty());
        }
        while i < old_sels.len()
            invariant
                i <= old_sels.len(),
                ids_wf(old_sels@, next_id),
                anchored(buffer@, old_sels@),
                kept@ == without_id(old_sels@.take(i as int), id),
                ids_wf(kept@, next_id),
                anchored(buffer@, kept@),
                forall|k: int, j: int|
                    0 <= k < kept@.len() && i <= j < old_sels@.len() ==> (#[trigger] kept@[k]).id < (
                    #[trigger] old_sels@[j]).id,
            decreases old_sels.len() - i,
        {
            let s = old_sels[i];
            proof {
                assert(old_sels@.take(i + 1).drop_last() == old_sels@.take(i as int));
                assert(old_sels@.take(i + 1).last() == s);
                assert(buffer@.owns(old_sels@[i as int].start));
                assert forall|j: int| i < j < old_sels@.len() implies s.id < (
                #[trigger] old_sels@[j]).id by {
                    assert(old_sels@[i as int].id < old_sels@[j].id);
                }
            }
            if s.id != id {
                kept.push(s);
            }
            i += 1;
        }
        proof {
            assert(old_sels@.take(i as int) == old_sels@);
        }
        MutableSelections { buffer, working: kept, next_id }
    }

    /// Puts the range in place of the range of the selection with the given
    /// id, if there is one. The selection keeps its id.
    pub fn replace(self, id: u64, start: usize, end: usize) -> (r: Self)
        ensures
            r.buffer() == self.buffer(),
            r.selections() == with_replaced(
                self.selections(),
                selection_for(self.buffer(), id, start as int, end as int),
            ),
            r.next_id() == self.next_id(),
    {
        proof {
            use_type_invariant(&self);
        }
        let buffer = self.buffer;
        let next_id = self.next_id;
        let fresh = make_selection(buffer, id, start, end);
        let mut working = self.working;
        let ghost before = working@;
        let mut i: usize = 0;
        while i < working.len()
            invariant
                i <= working.len(),
                working@.len() == before.len(),
                fresh.id == id,
                buffer@.owns(fresh.start),
                buffer@.owns(fresh.end),
                anchored(buffer@, before),
                forall|k: int|
                    0 <= k < i ==> (#[trigger] working@[k]) == if before[k].id == id {
                        fresh
                    } else {
                        before[k]
                    },
                forall|k: int| i <= k < working@.len() ==> (#[trigger] working@[k]) == before[k],
            decreases working.len() - i,
        {
            if working[i].id == id {
                working.set(i, fresh);
            }
            i += 1;
        }
        proof {
            assert(working@ =~= with_replaced(before, fresh));
            assert forall|k: int| 0 <= k < working@.len() implies (#[trigger] working@[k]).id
                == before[k].id by {}
            assert forall|k: int, j: int| 0 <= k < j < working@.len() implies (
            #[trigger] working@[k]).id < (#[trigger] working@[j]).id by {
                assert(before[k].id < before[j].id);
            }
            assert forall|k: int| 0 <= k < working@.len() implies (#[trigger] working@[k]).id
                < next_id by {
                assert(before[k].id < next_id);
            }
            assert forall|k: int| 0 <= k < working@.len() implies buffer@.owns(
                (#[trigger] working@[k]).start,
            ) && buffer@.owns(working@[k].end) by {
                assert(buffer@.owns(before[k].start));
            }
        }
        MutableSelections { buffer, working, next_id }
    }

    /// Merges duplicates: removes every selection whose range in the present
    /// text an older selection covers too. The oldest of equal selections
    /// stays. Made inside a change, the merge is reported by the change's
    /// notification like any other.
    pub fn merge_duplicates(self) -> (r: Self)
        ensures
            r.buffer() == self.buffer(),
            r.selections() == merged(self.buffer(), self.selections()),
            r.next_id() == self.next_id(),
    {
        proof {
            use_type_invariant(&self);
        }
        let buffer = self.buffer;
        let next_id = self.next_id;
        let old_sels = self.working;
        let ranges = resolve_selections(buffer, &old_sels);
        let mut kept: Vec<Selection> = Vec::new();
        let mut i: usize = 0;
        proof {
            assert(old_sels@.take(0) =~= Seq::empty());
        }
        while i < old_sels.len()
            invariant
                i <= old_sels.len(),
                ids_wf(old_sels@, next_id),
                anchored(buffer@, old_sels@),
                ranges@ == resolved_all(buffer@, old_sels@),
                kept@ == merged(buffer@, old_sels@.take(i as int)),
                ids_wf(kept@, next_id),
                anchored(buffer@, kept@),
                forall|k: int, j: int|
                    0 <= k < kept@.len() && i <= j < old_sels@.len() ==> (#[trigger] kept@[k]).id < (
                    #[trigger] old_sels@[j]).id,
            decreases old_sels.len() - i,
        {
            let s = old_sels[i];
            let mine = ranges[i];
            let ghost part = old_sels@.take(i + 1);
            let mut seen: bool = false;
            let mut j: usize = 0;
            while j < i
                invariant
                    j <= i < old_sels.len(),
                    ranges@ == resolved_all(buffer@, old_sels@),
                    mine == ranges@[i as int],
                    seen <==> exists|k: int|
                        0 <= k < j && same_range(buffer@, #[trigger] old_sels@[k], old_sels@[i as int]),
                decreases i - j,
            {
                let other = ranges[j];
                assert(other == resolved_one(buffer@, old_sels@[j as int]));
                assert(mine == resolved_one(buffer@, old_sels@[i as int]));
                if other.start == mine.start && other.end == mine.end {
                    seen = true;
                }
                j += 1;
            }
            proof {
                assert(part.drop_last() == old_sels@.take(i as int));
                assert(part.last() == s);
                assert(buffer@.owns(old_sels@[i as int].start));
                assert forall|j: int| i < j < old_sels@.len() implies s.id < (
                #[trigger] old_sels@[j]).id by {
                    assert(old_sels@[i as int].id < old_sels@[j].id);
                }
                if seen {
                    let k = choose|k: int|
                        0 <= k < i && same_range(buffer@, #[trigger] old_sels@[k], old_sels@[i as int]);
                    assert(same_range(buffer@, part[k], part[i as int]));
                    assert(duplicates_older(buffer@, part, i as int));
                } else {
                    if duplicates_older(buffer@, part, i as int) {
                        let k = choose|k: int|
                            0 <= k < i && same_range(buffer@, #[trigger] part[k], part[i as int]);
                        assert(same_range(buffer@, old_sels@[k], old_sels@[i as int]));
                    }
                }
            }
            if !seen {
                kept.push(s);
            }
            i += 1;
        }
        proof {
            assert(old_sels@.take(i as int) == old_sels@);
        }
        MutableSelections { buffer, working: kept, next_id }
    }
}


/// Whether two vectors hold the same selections in the same order.
fn same_selections(a: &Vec<Selection>, b: &Vec<Selection>) -> (r: bool)
    ensures
        r == (a@ == b@),
{
    if a.len() != b.len() {
        return false;
    }
    let mut i: usize = 0;
    while i < a.len()
        invariant
            i <= a.len(),
            a.len() == b.len(),
            forall|k: int| 0 <= k < i ==> a@[k] == b@[k],
        decreases a.len() - i,
    {
        if a[i] != b[i] {
            return false;
        }
        i += 1;
    }
    assert(a@ =~= b@);
    true
}

/// A copy of the selections.
fn copy_selections(sels: &Vec<Selection>) -> (out: Vec<Selection>)
    ensures
        out@ == sels@,
{
    let mut out: Vec<Selection> = Vec::new();
    let mut i: usize = 0;
    while i < sels.len()
        invariant
            i <= sels.len(),
            out@ == sels@.take(i as int),
        decreases sels.len() - i,
    {
        out.push(sels[i]);
        i += 1;
        assert(sels@.take(i as int) == sels@.take(i - 1).push(sels@[i - 1]));
    }
    assert(sels@.take(sels.len() as int) == sels@);
    out
}

/// What a selection set is: its selections in ascending order of their ids,
/// the id that comes next, and whether a change is open.
pub ghost struct SelectionSetView {
    pub selections: Seq<Selection>,
    pub next_id: u64,
    pub mutating: bool,
}

/// The selections of one editor: a mapping from ids to anchored ranges.
/// It is changed only through a change transaction, which ends in at most
/// one notification.
pub struct SelectionSet {
    selections: Vec<Selection>,
    next_id: u64,
    mutating: bool,
}

impl View for SelectionSet {
    type V = SelectionSetView;

    closed spec fn view(&self) -> SelectionSetView {
        SelectionSetView {
            selections: self.selections@,
            next_id: self.next_id,
            mutating: self.mutating,
        }
    }
}

impl SelectionSet {
    /// The ids ascend and lie below the next id.
    #[verifier::type_invariant]
    spec fn inv(self) -> bool {
        ids_wf(self.selections@, self.next_id)
    }

    /// Every anchor of the set was made by the buffer.
    pub open spec fn anchored_in(&self, v: BufferView) -> bool {
        anchored(v, self@.selections)
    }

    /// A set without selections.
    pub fn new() -> (s: SelectionSet)
        ensures
            s@ == (SelectionSetView { selections: Seq::empty(), next_id: 0, mutating: false }),
    {
        SelectionSet { selections: Vec::new(), next_id: 0, mutating: false }
    }

    /// Whether a change is open.
    pub fn is_mutating(&self) -> (r: bool)
        ensures
            r == self@.mutating,
    {
        self.mutating
    }

    /// The number of selections.
    pub fn count(&self) -> (n: usize)
        ensures
            n == self@.selections.len(),
    {
        self.selections.len()
    }

    /// The selections in ascending order of their ids.
    pub fn all(&self) -> (sels: Vec<Selection>)
        ensures
            sels@ == self@.selections,
            ids_wf(self@.selections, self@.next_id),
    {
        proof {
            use_type_invariant(self);
        }
        copy_selections(&self.selections)
    }

    /// The selection with the highest id, if there is any selection.
    pub fn newest(&self) -> (r: Option<Selection>)
        ensures
            r is None <==> self@.selections.len() == 0,
            r is Some ==> self@.selections.contains(r->0) && forall|i: int|
                0 <= i < self@.selections.len() ==> (#[trigger] self@.selections[i]).id <= r->0.id,
    {
        proof {
            use_type_invariant(self);
        }
        let n: usize = self.selections.len();
        if n == 0 {
            None
        } else {
            let s = self.selections[n - 1];
            assert(self@.selections[n - 1] == s);
            assert forall|i: int| 0 <= i < self@.selections.len() implies (
            #[trigger] self@.selections[i]).id <= s.id by {
                if i < n - 1 {
                    assert(self@.selections[i].id < self@.selections[n - 1].id);
                }
            }
            Some(s)
        }
    }

    /// The selection with the lowest id, if there is any selection.
    pub fn oldest(&self) -> (r: Option<Selection>)
        ensures
            r is None <==> self@.selections.len() == 0,
            r is Some ==> self@.selections.contains(r->0) && forall|i: int|
                0 <= i < self@.selections.len() ==> r->0.id <= (#[trigger] self@.selections[i]).id,
    {
        proof {
            use_type_invariant(self);
        }
        if self.selections.len() == 0 {
            None
        } else {
            let s = self.selections[0];
            assert(self@.selections[0] == s);
            assert forall|i: int| 0 <= i < self@.selections.len() implies s.id <= (
            #[trigger] self@.selections[i]).id by {
                if 0 < i {
                    assert(self@.selections[0].id < self@.selections[i].id);
                }
            }
            Some(s)
        }
    }

    /// Whether every anchor of the set was made by the buffer.
    pub fn belongs_to(&self, buffer: &Buffer) -> (r: bool)
        requires
            buffer.wf(),
        ensures
            r == self.anchored_in(buffer@),
    {
        let mut i: usize = 0;
        while i < self.selections.len()
            invariant
                buffer.wf(),
                i <= self.selections.len(),
                forall|k: int|
                    0 <= k < i ==> buffer@.owns((#[trigger] self.selections@[k]).start)
                        && buffer@.owns(self.selections@[k].end),
            decreases self.selections.len() - i,
        {
            let s = &self.selections[i];
            if !buffer.owns_anchor(&s.start) || !buffer.owns_anchor(&s.end) {
                assert(!(buffer@.owns(self@.selections[i as int].start) && buffer@.owns(
                    self@.selections[i as int].end,
                )));
                return false;
            }
            i += 1;
        }
        true
    }

    /// The selections as offsets of the buffer's present text, in ascending
    /// order of their ids.
    pub fn resolved(&self, buffer: &Buffer) -> (out: Vec<SelectionRange>)
        requires
            buffer.wf(),
            self.anchored_in(buffer@),
        ensures
            out@ == resolved_all(buffer@, self@.selections),
    {
        resolve_selections(buffer, &self.selections)
    }

    /// Opens a change and hands out the working copy. While a change is
    /// open, a second one is refused with `ReentrantChange`. Opening a
    /// change shows nothing to an observer of the set: its selections stay
    /// as they are until the change is committed.
    pub fn begin_change<'a>(&mut self, buffer: &'a Buffer) -> (r: Result<
        MutableSelections<'a>,
        Error,
    >)
        requires
            buffer.wf(),
            old(self).anchored_in(buffer@),
        ensures
            match r {
                Ok(h) => {
                    &&& !old(self)@.mutating
                    &&& final(self)@ == (SelectionSetView { mutating: true, ..old(self)@ })
                    &&& h.buffer() == buffer@
                    &&& h.selections() == old(self)@.selections
                    &&& h.next_id() == old(self)@.next_id
                },
                Err(e) => {
                    &&& e == Error::ReentrantChange
                    &&& old(self)@.mutating
                    &&& *final(self) == *old(self)
                },
            },
    {
        proof {
            use_type_invariant(&*self);
        }
        if self.mutating {
            return Err(Error::ReentrantChange);
        }
        self.mutating = true;
        Ok(
            MutableSelections {
                buffer,
                working: copy_selections(&self.selections),
                next_id: self.next_id,
            },
        )
    }

    /// Ends the open change: the set takes over the working copy in one
    /// step. Where the new set differs from the prior one, the result is the
    /// one notification of the change, which carries the hint and all
    /// selections of the new set as offsets; where it does not differ, there
    /// is no notification.
    pub fn commit<'a>(
        &mut self,
        handle: MutableSelections<'a>,
        autoscroll: Option<Autoscroll>,
    ) -> (note: Option<SelectionsChanged>)
        requires
            old(self)@.mutating,
        ensures
            final(self)@ == (SelectionSetView {
                selections: handle.selections(),
                next_id: handle.next_id(),
                mutating: false,
            }),
            final(self).anchored_in(handle.buffer()),
            note is None <==> handle.selections() == old(self)@.selections,
            note is Some ==> note->0.autoscroll == autoscroll && note->0.selections@
                == resolved_all(handle.buffer(), handle.selections()),
    {
        proof {
            use_type_invariant(&handle);
        }
        let changed = !same_selections(&handle.working, &self.selections);
        let note = if changed {
            Some(
                SelectionsChanged {
                    autoscroll,
                    selections: resolve_selections(handle.buffer, &handle.working),
                },
            )
        } else {
            None
        };
        *self = SelectionSet {
            selections: handle.working,
            next_id: handle.next_id,
            mutating: false,
        };
        note
    }

    /// Replaces the entire set by one selection for each range, numbered
    /// from 0 in the order given, as one change without a hint. Refused with
    /// `ReentrantChange` while a change is open.
    pub fn select_ranges(&mut self, buffer: &Buffer, ranges: &Vec<(usize, usize)>) -> (r: Result<
        Option<SelectionsChanged>,
        Error,
    >)
        requires
            buffer.wf(),
            old(self).anchored_in(buffer@),
        ensures
            match r {
                Ok(note) => {
                    &&& !old(self)@.mutating
                    &&& final(self)@ == (SelectionSetView {
                        selections: selections_for(buffer@, ranges@),
                        next_id: ranges@.len() as u64,
                        mutating: false,
                    })
                    &&& final(self).anchored_in(buffer@)
                    &&& note is None <==> selections_for(buffer@, ranges@)
                        == old(self)@.selections
                    &&& note is Some ==> note->0.autoscroll is None && note->0.selections@
                        == resolved_all(buffer@, selections_for(buffer@, ranges@))
                },
                Err(e) => {
                    &&& e == Error::ReentrantChange
                    &&& old(self)@.mutating
                    &&& *final(self) == *old(self)
                },
            },
    {
        match self.begin_change(buffer) {
            Err(e) => Err(e),
            Ok(handle) => {
                let handle = handle.select_ranges(ranges);
                Ok(self.commit(handle, None))
            },
        }
    }

    /// A whole change in one call: opens the change, lets `mutator` work on
    /// the working copy, and commits what it returns. An observer sees the
    /// set pass from the prior selections to the final ones in one step, and
    /// at most one notification, which carries the final set in full:
    /// nothing is shown or emitted while the mutator runs. Refused with
    /// `ReentrantChange`, without a call of the mutator, while another change
    /// is open.
    pub fn change_selections<'a, F: FnOnce(MutableSelections<'a>) -> MutableSelections<'a>>(
        &mut self,
        autoscroll: Option<Autoscroll>,
        buffer: &'a Buffer,
        mutator: F,
    ) -> (r: Result<Option<SelectionsChanged>, Error>)
        requires
            buffer.wf(),
            old(self).anchored_in(buffer@),
            forall|h: MutableSelections<'a>|
                h.buffer() == buffer@ && h.selections() == old(self)@.selections && h.next_id()
                    == old(self)@.next_id ==> mutator.requires((h,)),
        ensures
            match r {
                Ok(note) => {
                    &&& !old(self)@.mutating
                    &&& exists|before: MutableSelections<'a>, after: MutableSelections<'a>|
                        {
                            &&& before.buffer() == buffer@
                            &&& before.selections() == old(self)@.selections
                            &&& before.next_id() == old(self)@.next_id
                            &&& mutator.ensures((before,), after)
                            &&& final(self)@ == (SelectionSetView {
                                selections: after.selections(),
                                next_id: after.next_id(),
                                mutating: false,
                            })
                            &&& final(self).anchored_in(after.buffer())
                            &&& note is None <==> after.selections() == old(self)@.selections
                            &&& note is Some ==> note->0.autoscroll == autoscroll
                                && note->0.selections@ == resolved_all(
                                after.buffer(),
                                after.selections(),
                            )
                        }
                },
                Err(e) => {
                    &&& e == Error::ReentrantChange
                    &&& old(self)@.mutating
                    &&& *final(self) == *old(self)
                },
            },
    {
        match self.begin_change(buffer) {
            Err(e) => Err(e),
            Ok(before) => {
                let after = mutator(before);
                let note = self.commit(after, autoscroll);
                Ok(note)
            },
        }
    }
}

} // verus!
