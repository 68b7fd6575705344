use vstd::prelude::*;
use crate::buffer::{
    Anchor, Bias, Buffer, BufferView, Edit, EditSpec, apply_batch, apply_one, batch_accepted,
    batch_valid, batch_view, edit_fits, lemma_edited, lemma_ordered_in_order,
    lemma_owns_after_edit, lemma_resolve_monotonic, ordered, shift_batch, shift_one,
};
use crate::error::Error;

verus! {

/// The range of a buffer that a new excerpt shows, with the part of it that
/// is highlighted, if any. All offsets are offsets of the buffer's present
/// text.
#[derive(Clone, Copy, Debug, PartialEq, Eq)]
pub struct ExcerptRange {
    pub context_start: usize,
    pub context_end: usize,
    pub primary: Option<(usize, usize)>,
}

/// A range of one member buffer shown in a multi-buffer. Its ends are
/// anchors, so the excerpt follows the edits of its buffer; text inserted at
/// either end belongs to the excerpt.
#[derive(Clone, Copy, Debug, PartialEq, Eq)]
pub struct Excerpt {
    pub id: u64,
    pub buffer: usize,
    pub buffer_id: u64,
    pub context_start: Anchor,
    pub context_end: Anchor,
    pub primary: Option<(Anchor, Anchor)>,
}

/// Where an edit made through the multi-buffer went.
#[derive(Clone, Copy, PartialEq, Eq, Structural, Debug)]
pub struct ForwardedEdit {
    /// The index of the excerpt that holds the edited range.
    pub excerpt: usize,
    /// The index of the member buffer in the multi-buffer.
    pub buffer: usize,
    pub buffer_id: u64,
    /// The edited range in the offsets of the member buffer.
    pub start: usize,
    pub end: usize,
    /// The revision of the member buffer after the edit.
    pub revision: u64,
}

/// What a multi-buffer is: its member buffers, its excerpts in their order,
/// and whether a line break stands between two excerpts.
pub ghost struct MultiBufferView {
    pub buffers: Seq<BufferView>,
    pub excerpts: Seq<Excerpt>,
    pub separators: bool,
    pub next_id: u64,
}

impl MultiBufferView {
    /// The excerpt refers to a member buffer by anchors of that buffer, made
    /// at one revision, in order, with the primary range inside the context.
    pub open spec fn excerpt_wf(self, x: Excerpt) -> bool {
        &&& x.buffer < self.buffers.len()
        &&& x.buffer_id == self.buffers[x.buffer as int].id
        &&& self.buffers[x.buffer as int].owns(x.context_start)
        &&& self.buffers[x.buffer as int].owns(x.context_end)
        &&& x.context_start.revision == x.context_end.revision
        &&& x.context_start.offset <= x.context_end.offset
        &&& x.context_start.bias == Bias::Before
        &&& x.context_end.bias == Bias::After
        &&& match x.primary {
            Some((p, q)) => {
                &&& self.buffers[x.buffer as int].owns(p)
                &&& self.buffers[x.buffer as int].owns(q)
                &&& p.revision == x.context_start.revision
                &&& q.revision == x.context_start.revision
                &&& x.context_start.offset <= p.offset <= q.offset <= x.context_end.offset
                &&& p.bias == Bias::Before
                &&& q.bias == Bias::After
            },
            None => true,
        }
    }

    /// The member buffers and the excerpts are well formed, and the ids of
    /// the excerpts ascend.
    pub open spec fn wf(self) -> bool {
        &&& forall|b: int| 0 <= b < self.buffers.len() ==> (#[trigger] self.buffers[b]).wf()
        &&& forall|i: int| 0 <= i < self.excerpts.len() ==> self.excerpt_wf(#[trigger] self.excerpts[i])
        &&& forall|i: int, j: int|
            0 <= i < j < self.excerpts.len() ==> (#[trigger] self.excerpts[i]).id < (
            #[trigger] self.excerpts[j]).id
        &&& forall|i: int| 0 <= i < self.excerpts.len() ==> (#[trigger] self.excerpts[i]).id < self.next_id
    }

    /// The member buffer of excerpt `i`.
    pub open spec fn buffer_of(self, i: int) -> BufferView {
        self.buffers[self.excerpts[i].buffer as int]
    }

    /// Where excerpt `i` starts in the present text of its buffer.
    pub open spec fn buffer_start(self, i: int) -> int {
        self.buffer_of(i).resolve(self.excerpts[i].context_start, self.buffer_of(i).revision())
    }

    /// Where excerpt `i` ends in the present text of its buffer.
    pub open spec fn buffer_end(self, i: int) -> int {
        self.buffer_of(i).resolve(self.excerpts[i].context_end, self.buffer_of(i).revision())
    }

    /// The number of characters of excerpt `i`.
    pub open spec fn excerpt_len(self, i: int) -> int {
        self.buffer_end(i) - self.buffer_start(i)
    }

    /// The text of excerpt `i`.
    pub open spec fn excerpt_text(self, i: int) -> Seq<char> {
        self.buffer_of(i).content().subrange(self.buffer_start(i), self.buffer_end(i))
    }

    /// The number of characters between two excerpts.
    pub open spec fn gap(self) -> int {
        if self.separators {
            1
        } else {
            0
        }
    }

    /// The offset of the first character of excerpt `i` in the multi-buffer:
    /// the lengths of the excerpts in front of it, each with its separator.
    pub open spec fn excerpt_offset(self, i: int) -> int
        decreases i,
    {
        if i <= 0 {
            0
        } else {
            self.excerpt_offset(i - 1) + self.excerpt_len(i - 1) + self.gap()
        }
    }

    /// The number of characters of the multi-buffer.
    pub open spec fn total_len(self) -> int {
        if self.excerpts.len() == 0 {
            0
        } else {
            self.excerpt_offset(self.excerpts.len() - 1) + self.excerpt_len(
                self.excerpts.len() - 1,
            )
        }
    }

    /// Excerpt `i` holds the whole range `a..b` of the multi-buffer.
    pub open spec fn holds(self, i: int, a: int, b: int) -> bool {
        self.excerpt_offset(i) <= a && b <= self.excerpt_offset(i) + self.excerpt_len(i)
    }

    /// The text of the first `i` excerpts, with a line break between two
    /// excerpts where the multi-buffer has separators.
    pub open spec fn text_upto(self, i: int) -> Seq<char>
        decreases i,
    {
        if i <= 0 {
            Seq::empty()
        } else if i == 1 || !self.separators {
            self.text_upto(i - 1) + self.excerpt_text(i - 1)
        } else {
            self.text_upto(i - 1) + seq!['\n'] + self.excerpt_text(i - 1)
        }
    }

    /// The text of the multi-buffer.
    pub open spec fn text(self) -> Seq<char> {
        self.text_upto(self.excerpts.len() as int)
    }
}

/// An excerpt lies within the present text of its buffer, start before end.
pub proof fn lemma_excerpt_bounds(v: MultiBufferView, i: int)
    requires
        v.wf(),
        0 <= i < v.excerpts.len(),
    ensures
        0 <= v.buffer_start(i) <= v.buffer_end(i) <= v.buffer_of(i).content().len(),
        v.excerpt_len(i) >= 0,
        v.excerpt_text(i).len() == v.excerpt_len(i),
{
    let x = v.excerpts[i];
    assert(v.excerpt_wf(x));
    let b = v.buffer_of(i);
    assert(b.wf());
    crate::buffer::lemma_track_in_bounds(
        b,
        x.context_start.revision as int,
        b.revision(),
        x.context_start.offset as int,
        x.context_start.bias,
    );
    crate::buffer::lemma_track_in_bounds(
        b,
        x.context_end.revision as int,
        b.revision(),
        x.context_end.offset as int,
        x.context_end.bias,
    );
    lemma_resolve_monotonic(b, x.context_start, x.context_end, b.revision());
    assert(b.log.take(b.revision()) == b.log);
}

/// Excerpts start in their order, and none ends behind the multi-buffer.
pub proof fn lemma_offsets_ascend(v: MultiBufferView, i: int, j: int)
    requires
        v.wf(),
        0 <= i <= j < v.excerpts.len(),
    ensures
        0 <= v.excerpt_offset(i),
        i < j ==> v.excerpt_offset(i) + v.excerpt_len(i) + v.gap() <= v.excerpt_offset(j),
        v.excerpt_offset(i) + v.excerpt_len(i) <= v.excerpt_offset(j) + v.excerpt_len(j),
        v.excerpt_offset(j) + v.excerpt_len(j) <= v.total_len(),
{
    lemma_offset_nonnegative(v, i);
    lemma_offsets_ascend_to(v, i, j);
    lemma_offsets_ascend_to(v, j, v.excerpts.len() - 1);
}

/// No excerpt starts in front of offset 0.
pub proof fn lemma_offset_nonnegative(v: MultiBufferView, i: int)
    requires
        v.wf(),
        0 <= i <= v.excerpts.len(),
    ensures
        0 <= v.excerpt_offset(i),
    decreases i,
{
    if i > 0 {
        lemma_excerpt_bounds(v, i - 1);
        lemma_offset_nonnegative(v, i - 1);
    }
}

/// The end of an excerpt does not lie behind the end of a later one.
pub proof fn lemma_offsets_ascend_to(v: MultiBufferView, i: int, j: int)
    requires
        v.wf(),
        0 <= i <= j < v.excerpts.len(),
    ensures
        v.excerpt_offset(i) + v.excerpt_len(i) <= v.excerpt_offset(j) + v.excerpt_len(j),
        i < j ==> v.excerpt_offset(i) + v.excerpt_len(i) + v.gap() <= v.excerpt_offset(j),
    decreases j - i,
{
    lemma_excerpt_bounds(v, j);
    if i < j {
        lemma_excerpt_bounds(v, j - 1);
        lemma_offsets_ascend_to(v, i, j - 1);
    }
}


/// The views of the member buffers.
pub open spec fn buffer_views(buffers: Seq<Buffer>) -> Seq<BufferView> {
    Seq::new(buffers.len(), |b: int| buffers[b]@)
}

/// One editable text stitched together from excerpts of member buffers,
/// which the multi-buffer owns and addresses by their index.
pub struct MultiBuffer {
    buffers: Vec<Buffer>,
    excerpts: Vec<Excerpt>,
    next_id: u64,
    separators: bool,
}

impl View for MultiBuffer {
    type V = MultiBufferView;

    closed spec fn view(&self) -> MultiBufferView {
        MultiBufferView {
            buffers: buffer_views(self.buffers@),
            excerpts: self.excerpts@,
            separators: self.separators,
            next_id: self.next_id,
        }
    }
}

impl MultiBuffer {
    /// The member buffers and the view are well formed.
    pub closed spec fn wf(&self) -> bool {
        &&& self@.wf()
        &&& forall|b: int| 0 <= b < self.buffers@.len() ==> (#[trigger] self.buffers@[b]).wf()
    }

    /// What a well-formed multi-buffer tells of its view.
    pub proof fn lemma_wf(&self)
        requires
            self.wf(),
        ensures
            self@.wf(),
            self@.excerpts.len() <= usize::MAX,
            self@.buffers.len() <= usize::MAX,
    {
        assert(self.excerpts.len() <= usize::MAX);
        assert(self.buffers.len() <= usize::MAX);
    }

    /// A multi-buffer without members and excerpts. With `separators`, a
    /// line break stands between two excerpts.
    pub fn new(separators: bool) -> (m: MultiBuffer)
        ensures
            m.wf(),
            m@ == (MultiBufferView {
                buffers: Seq::empty(),
                excerpts: Seq::empty(),
                separators,
                next_id: 0,
            }),
    {
        let m = MultiBuffer { buffers: Vec::new(), excerpts: Vec::new(), next_id: 0, separators };
        assert(m@.buffers =~= Seq::empty());
        m
    }

    /// Takes a buffer as a member and returns its index.
    pub fn add_buffer(&mut self, buffer: Buffer) -> (index: usize)
        requires
            old(self).wf(),
            buffer.wf(),
        ensures
            final(self).wf(),
            index == old(self)@.buffers.len(),
            final(self)@ == (MultiBufferView {
                buffers: old(self)@.buffers.push(buffer@),
                ..old(self)@
            }),
    {
        let ghost before = self@;
        proof {
            buffer.lemma_wf();
        }
        let index: usize = self.buffers.len();
        self.buffers.push(buffer);
        proof {
            assert(self@.buffers =~= before.buffers.push(buffer@));
            assert forall|i: int| 0 <= i < self@.excerpts.len() implies self@.excerpt_wf(
                #[trigger] self@.excerpts[i],
            ) by {
                assert(before.excerpt_wf(before.excerpts[i]));
            }
            assert forall|b: int| 0 <= b < self@.buffers.len() implies (
            #[trigger] self@.buffers[b]).wf() by {
                if b < before.buffers.len() {
                    assert(before.buffers[b].wf());
                }
            }
        }
        index
    }

    /// The member buffer with the given index.
    pub fn buffer(&self, index: usize) -> (r: Option<&Buffer>)
        requires
            self.wf(),
        ensures
            r is Some <==> index < self@.buffers.len(),
            r is Some ==> r->0@ == self@.buffers[index as int] && r->0.wf(),
    {
        if index < self.buffers.len() {
            Some(&self.buffers[index])
        } else {
            None
        }
    }

    /// The id that the next excerpt gets.
    pub fn next_excerpt_id(&self) -> (id: u64)
        ensures
            id == self@.next_id,
    {
        self.next_id
    }

    /// The number of member buffers.
    pub fn buffer_count(&self) -> (n: usize)
        ensures
            n == self@.buffers.len(),
    {
        self.buffers.len()
    }

    /// The excerpts in their order.
    pub fn excerpts(&self) -> (x: &Vec<Excerpt>)
        ensures
            x@ == self@.excerpts,
    {
        &self.excerpts
    }

    /// Where excerpt `i` starts and ends in the present text of its buffer.
    pub fn excerpt_bounds(&self, i: usize) -> (r: (usize, usize))
        requires
            self.wf(),
            i < self@.excerpts.len(),
        ensures
            r.0 == self@.buffer_start(i as int),
            r.1 == self@.buffer_end(i as int),
            r.0 <= r.1 <= self@.buffer_of(i as int).content().len(),
    {
        proof {
            lemma_excerpt_bounds(self@, i as int);
            assert(self@.excerpt_wf(self@.excerpts[i as int]));
        }
        let x = &self.excerpts[i];
        let b = &self.buffers[x.buffer];
        assert(b@ == self@.buffers[x.buffer as int]);
        let start = b.offset_of(&x.context_start);
        let end = b.offset_of(&x.context_end);
        (start, end)
    }

    /// The first excerpt that holds the whole range `a..b`, with the
    /// distance of `a` from the start of that excerpt.
    pub fn find_excerpt(&self, a: usize, b: usize) -> (r: Option<(usize, usize)>)
        requires
            self.wf(),
            a <= b,
        ensures
            match r {
                Some((i, rel)) => {
                    &&& i < self@.excerpts.len()
                    &&& self@.holds(i as int, a as int, b as int)
                    &&& rel == a - self@.excerpt_offset(i as int)
                    &&& forall|j: int| 0 <= j < i ==> !self@.holds(j, a as int, b as int)
                },
                None => forall|j: int|
                    0 <= j < self@.excerpts.len() ==> !self@.holds(j, a as int, b as int),
            },
    {
        let ghost v = self@;
        let n: usize = self.excerpts.len();
        let mut i: usize = 0;
        let mut rem_a: usize = a;
        let mut rem_b: usize = b;
        while i < n
            invariant
                self.wf(),
                v == self@,
                n == v.excerpts.len(),
                i <= n,
                a <= b,
                rem_a == a - v.excerpt_offset(i as int),
                rem_b == b - v.excerpt_offset(i as int),
                forall|j: int| 0 <= j < i ==> !v.holds(j, a as int, b as int),
            decreases n - i,
        {
            let (start, end) = self.excerpt_bounds(i);
            let len: usize = end - start;
            if rem_b <= len {
                return Some((i, rem_a));
            }
            let more: bool = if rem_a < len {
                false
            } else if rem_a == len {
                !self.separators
            } else {
                true
            };
            if !more {
                proof {
                    self.lemma_wf();
                    assert forall|j: int| 0 <= j < n implies !v.holds(j, a as int, b as int) by {
                        if j > i {
                            lemma_offsets_ascend_to(v, i as int, j);
                        }
                    }
                }
                return None;
            }
            let gap: usize = if self.separators {
                1
            } else {
                0
            };
            rem_a = rem_a - len - gap;
            rem_b = rem_b - len - gap;
            i += 1;
        }
        None
    }

    /// Whether the offset lies within the multi-buffer.
    pub fn within(&self, offset: usize) -> (r: bool)
        requires
            self.wf(),
        ensures
            r == (offset <= self@.total_len()),
    {
        let ghost v = self@;
        let n: usize = self.excerpts.len();
        if n == 0 {
            return offset == 0;
        }
        let mut i: usize = 0;
        let mut rem: usize = offset;
        while i < n
            invariant
                self.wf(),
                v == self@,
                n == v.excerpts.len(),
                i < n,
                rem == offset - v.excerpt_offset(i as int),
            decreases n - i,
        {
            let (start, end) = self.excerpt_bounds(i);
            let len: usize = end - start;
            proof {
                self.lemma_wf();
                lemma_offsets_ascend(v, i as int, n - 1);
            }
            if rem <= len {
                return true;
            }
            if i == n - 1 {
                return false;
            }
            let gap: usize = if self.separators {
                1
            } else {
                0
            };
            rem = rem - len - gap;
            i += 1;
        }
        false
    }
}


/// The range lies within a text of `len` characters, and its primary part,
/// if it has one, lies within its context.
pub open spec fn range_fits(r: ExcerptRange, len: int) -> bool {
    &&& r.context_start <= r.context_end <= len
    &&& match r.primary {
        Some((p, q)) => r.context_start <= p <= q <= r.context_end,
        None => true,
    }
}

/// The anchor at `offset` of the present text.
pub open spec fn anchor_for(b: BufferView, offset: usize, bias: Bias) -> Anchor {
    Anchor { buffer_id: b.id, revision: b.revision() as u64, offset, bias }
}

/// The excerpt that shows the range of the present text of member `buffer`.
pub open spec fn excerpt_for(b: BufferView, buffer: usize, id: u64, r: ExcerptRange) -> Excerpt {
    Excerpt {
        id,
        buffer,
        buffer_id: b.id,
        context_start: anchor_for(b, r.context_start, Bias::Before),
        context_end: anchor_for(b, r.context_end, Bias::After),
        primary: match r.primary {
            Some((p, q)) => Some((anchor_for(b, p, Bias::Before), anchor_for(b, q, Bias::After))),
            None => None,
        },
    }
}

/// The excerpts for the ranges, numbered from `first_id` on.
pub open spec fn excerpts_for(
    b: BufferView,
    buffer: usize,
    first_id: u64,
    ranges: Seq<ExcerptRange>,
) -> Seq<Excerpt> {
    Seq::new(ranges.len(), |k: int| excerpt_for(b, buffer, (first_id + k) as u64, ranges[k]))
}

/// The excerpts whose id is not among `ids`, in their order.
pub open spec fn without_ids(excerpts: Seq<Excerpt>, ids: Seq<u64>) -> Seq<Excerpt>
    decreases excerpts.len(),
{
    if excerpts.len() == 0 {
        excerpts
    } else if ids.contains(excerpts.last().id) {
        without_ids(excerpts.drop_last(), ids)
    } else {
        without_ids(excerpts.drop_last(), ids).push(excerpts.last())
    }
}

/// The offsets of the excerpts depend on the excerpts in front of them only.
pub proof fn lemma_offset_prefix(v: MultiBufferView, w: MultiBufferView, i: int)
    requires
        0 <= i <= v.excerpts.len(),
        i <= w.excerpts.len(),
        v.buffers == w.buffers,
        v.separators == w.separators,
        forall|j: int| 0 <= j < i ==> v.excerpts[j] == w.excerpts[j],
    ensures
        v.excerpt_offset(i) == w.excerpt_offset(i),
        v.text_upto(i) == w.text_upto(i),
    decreases i,
{
    if i > 0 {
        lemma_offset_prefix(v, w, i - 1);
    }
}

/// The view after member `buffer` took one more batch.
pub open spec fn with_edited(v: MultiBufferView, buffer: int, batch: Seq<EditSpec>) -> MultiBufferView {
    MultiBufferView { buffers: v.buffers.update(buffer, v.buffers[buffer].edited(batch)), ..v }
}

/// A multi-buffer stays well formed when a member takes a well-formed batch:
/// every excerpt keeps its anchors.
pub proof fn lemma_with_edited_wf(v: MultiBufferView, buffer: int, batch: Seq<EditSpec>)
    requires
        v.wf(),
        0 <= buffer < v.buffers.len(),
        batch_valid(batch, v.buffers[buffer].content().len() as int),
    ensures
        with_edited(v, buffer, batch).wf(),
{
    let w = with_edited(v, buffer, batch);
    let b = v.buffers[buffer];
    assert(b.wf());
    lemma_edited(b, batch);
    assert forall|k: int| 0 <= k < w.buffers.len() implies (#[trigger] w.buffers[k]).wf() by {
        if k != buffer {
            assert(v.buffers[k].wf());
        }
    }
    assert forall|i: int| 0 <= i < w.excerpts.len() implies w.excerpt_wf(
        #[trigger] w.excerpts[i],
    ) by {
        let x = v.excerpts[i];
        assert(v.excerpt_wf(x));
        if x.buffer == buffer {
            lemma_owns_after_edit(b, batch, x.context_start);
            lemma_owns_after_edit(b, batch, x.context_end);
            match x.primary {
                Some((p, q)) => {
                    lemma_owns_after_edit(b, batch, p);
                    lemma_owns_after_edit(b, batch, q);
                },
                None => {},
            }
        }
    }
}

impl MultiBuffer {
    /// Replaces the range `start..end` of the multi-buffer by `text`. The
    /// edit goes to the first excerpt that holds the whole range, and is
    /// forwarded to that excerpt's buffer in the buffer's own offsets. A
    /// range that is reversed or reaches behind the multi-buffer is rejected
    /// with `InvalidRange`; a range within the multi-buffer that no single
    /// excerpt holds is rejected with `CrossExcerptEdit`. A rejected edit
    /// changes nothing.
    pub fn edit(&mut self, start: usize, end: usize, text: Vec<char>) -> (r: Result<
        ForwardedEdit,
        Error,
    >)
        requires
            old(self).wf(),
        ensures
            final(self).wf(),
            match r {
                Ok(f) => {
                    &&& start <= end <= old(self)@.total_len()
                    &&& f.excerpt < old(self)@.excerpts.len()
                    &&& old(self)@.holds(f.excerpt as int, start as int, end as int)
                    &&& forall|j: int|
                        0 <= j < f.excerpt ==> !old(self)@.holds(j, start as int, end as int)
                    &&& f.buffer == old(self)@.excerpts[f.excerpt as int].buffer
                    &&& f.buffer_id == old(self)@.excerpts[f.excerpt as int].buffer_id
                    &&& f.start == old(self)@.buffer_start(f.excerpt as int) + (start
                        - old(self)@.excerpt_offset(f.excerpt as int))
                    &&& f.end == f.start + (end - start)
                    &&& f.revision == old(self)@.buffers[f.buffer as int].revision() + 1
                    &&& final(self)@ == with_edited(
                        old(self)@,
                        f.buffer as int,
                        seq![EditSpec { start: f.start as int, end: f.end as int, text: text@ }],
                    )
                    &&& old(self)@.shown_once(f.excerpt as int) ==> final(self)@.text() == apply_one(
                        old(self)@.text(),
                        EditSpec { start: start as int, end: end as int, text: text@ },
                    )
                },
                Err(e) => {
                    &&& *final(self) == *old(self)
                    &&& e == Error::InvalidRange || e == Error::CrossExcerptEdit
                    &&& e == Error::InvalidRange <==> !(start <= end <= old(self)@.total_len())
                    &&& e == Error::CrossExcerptEdit <==> start <= end <= old(self)@.total_len()
                        && forall|j: int|
                        0 <= j < old(self)@.excerpts.len() ==> !old(self)@.holds(
                            j,
                            start as int,
                            end as int,
                        )
                },
            },
    {
        if start > end || !self.within(end) {
            return Err(Error::InvalidRange);
        }
        let ghost v = self@;
        match self.find_excerpt(start, end) {
            None => Err(Error::CrossExcerptEdit),
            Some((i, rel)) => {
                let (from, to) = self.excerpt_bounds(i);
                let x = self.excerpts[i];
                let at: usize = from + rel;
                let upto: usize = at + (end - start);
                let mut edits: Vec<Edit> = Vec::new();
                edits.push(Edit { start: at, end: upto, text });
                let ghost batch = batch_view(edits@);
                let ghost one = EditSpec { start: at as int, end: upto as int, text: text@ };
                proof {
                    self.lemma_wf();
                    assert(v.excerpt_wf(v.excerpts[i as int]));
                    assert(batch =~= seq![one]);
                    assert(batch_valid(batch, v.buffers[x.buffer as int].content().len() as int));
                    lemma_ordered_in_order(
                        batch,
                        v.buffers[x.buffer as int].content().len() as int,
                    );
                    lemma_with_edited_wf(v, x.buffer as int, batch);
                    if v.shown_once(i as int) {
                        lemma_edit_replaces_text(v, i as int, start as int, end as int, text@);
                    }
                }
                let ghost members = self.buffers@;
                let r = self.buffers[x.buffer].edit(edits);
                proof {
                    assert(self@.buffers =~= v.buffers.update(
                        x.buffer as int,
                        v.buffers[x.buffer as int].edited(batch),
                    ));
                    assert(self@ == with_edited(v, x.buffer as int, batch));
                    assert forall|b: int| 0 <= b < self.buffers@.len() implies (
                    #[trigger] self.buffers@[b]).wf() by {
                        if b != x.buffer {
                            assert(self.buffers@[b] == members[b]);
                        }
                    }
                }
                match r {
                    Ok(revision) => Ok(
                        ForwardedEdit {
                            excerpt: i,
                            buffer: x.buffer,
                            buffer_id: x.buffer_id,
                            start: at,
                            end: upto,
                            revision,
                        },
                    ),
                    Err(e) => Err(e),
                }
            },
        }
    }

    /// Appends one excerpt of member `buffer` for each range and returns
    /// their ids, which serve to remove them later. The excerpts that were
    /// there keep their offsets. Where `buffer` is no member, or a range does
    /// not lie within the present text of the buffer, or a primary range does
    /// not lie within its context, nothing is appended and the result is
    /// `InvalidRange`.
    pub fn push_excerpts(&mut self, buffer: usize, ranges: &Vec<ExcerptRange>) -> (r: Result<
        Vec<u64>,
        Error,
    >)
        requires
            old(self).wf(),
            old(self)@.next_id + ranges@.len() <= u64::MAX,
        ensures
            final(self).wf(),
            match r {
                Ok(ids) => {
                    &&& buffer < old(self)@.buffers.len()
                    &&& forall|k: int|
                        0 <= k < ranges@.len() ==> range_fits(
                            #[trigger] ranges@[k],
                            old(self)@.buffers[buffer as int].content().len() as int,
                        )
                    &&& final(self)@ == (MultiBufferView {
                        excerpts: old(self)@.excerpts + excerpts_for(
                            old(self)@.buffers[buffer as int],
                            buffer,
                            old(self)@.next_id,
                            ranges@,
                        ),
                        next_id: (old(self)@.next_id + ranges@.len()) as u64,
                        ..old(self)@
                    })
                    &&& ids@.len() == ranges@.len()
                    &&& forall|k: int|
                        0 <= k < ids@.len() ==> (#[trigger] ids@[k]) == old(self)@.next_id + k
                    &&& forall|i: int|
                        0 <= i <= old(self)@.excerpts.len() ==> final(self)@.excerpt_offset(i)
                            == old(self)@.excerpt_offset(i)
                },
                Err(e) => {
                    &&& e == Error::InvalidRange
                    &&& *final(self) == *old(self)
                    &&& !(buffer < old(self)@.buffers.len() && forall|k: int|
                        0 <= k < ranges@.len() ==> range_fits(
                            #[trigger] ranges@[k],
                            old(self)@.buffers[buffer as int].content().len() as int,
                        ))
                },
            },
    {
        if buffer >= self.buffers.len() {
            return Err(Error::InvalidRange);
        }
        let ghost v = self@;
        let ghost bv = v.buffers[buffer as int];
        proof {
            self.lemma_wf();
            assert(self.buffers@[buffer as int].wf());
            self.buffers@[buffer as int].lemma_wf();
        }
        let len: usize = self.buffers[buffer].len();
        let mut k: usize = 0;
        while k < ranges.len()
            invariant
                k <= ranges.len(),
                *self == *old(self),
                self.wf(),
                buffer < old(self)@.buffers.len(),
                len == old(self)@.buffers[buffer as int].content().len(),
                forall|j: int| 0 <= j < k ==> range_fits(#[trigger] ranges@[j], len as int),
            decreases ranges.len() - k,
        {
            let r = &ranges[k];
            let fits = r.context_start <= r.context_end && r.context_end <= len && match r.primary {
                Some((p, q)) => r.context_start <= p && p <= q && q <= r.context_end,
                None => true,
            };
            if !fits {
                assert(!range_fits(ranges@[k as int], len as int));
                return Err(Error::InvalidRange);
            }
            k += 1;
        }
        let first: u64 = self.next_id;
        let mut ids: Vec<u64> = Vec::new();
        let mut k: usize = 0;
        while k < ranges.len()
            invariant
                k <= ranges.len(),
                first + ranges@.len() <= u64::MAX,
                buffer < self.buffers@.len(),
                self.buffers@ == old(self).buffers@,
                self.buffers@[buffer as int].wf(),
                self.buffers@[buffer as int]@ == bv,
                bv.wf(),
                len == bv.content().len(),
                v == old(self)@,
                forall|j: int| 0 <= j < ranges@.len() ==> range_fits(#[trigger] ranges@[j], len as int),
                self@ == (MultiBufferView {
                    excerpts: v.excerpts + excerpts_for(bv, buffer, first, ranges@.take(k as int)),
                    next_id: (first + k) as u64,
                    ..v
                }),
                ids@.len() == k,
                forall|j: int| 0 <= j < k ==> (#[trigger] ids@[j]) == first + j,
            decreases ranges.len() - k,
        {
            let r = ranges[k];
            assert(range_fits(ranges@[k as int], len as int));
            let b = &self.buffers[buffer];
            let id: u64 = self.next_id;
            let context_start = b.anchor_before(r.context_start);
            let context_end = b.anchor_after(r.context_end);
            let primary = match r.primary {
                Some((p, q)) => Some((b.anchor_before(p), b.anchor_after(q))),
                None => None,
            };
            let x = Excerpt { id, buffer, buffer_id: b.id(), context_start, context_end, primary };
            assert(x == excerpt_for(bv, buffer, id, r));
            self.excerpts.push(x);
            ids.push(id);
            self.next_id = self.next_id + 1;
            proof {
                let grown = excerpts_for(bv, buffer, first, ranges@.take(k + 1));
                let had = excerpts_for(bv, buffer, first, ranges@.take(k as int));
                assert(grown =~= had.push(x));
                assert(self@.excerpts =~= v.excerpts + grown);
            }
            k += 1;
        }
        proof {
            assert(ranges@.take(k as int) == ranges@);
            let added = excerpts_for(bv, buffer, first, ranges@);
            let w = self@;
            assert forall|i: int| 0 <= i < w.excerpts.len() implies w.excerpt_wf(
                #[trigger] w.excerpts[i],
            ) by {
                if i < v.excerpts.len() {
                    assert(v.excerpt_wf(v.excerpts[i]));
                } else {
                    let j = i - v.excerpts.len();
                    assert(w.excerpts[i] == added[j]);
                    assert(range_fits(ranges@[j], len as int));
                    assert(bv.log.take(bv.revision()) == bv.log);
                }
            }
            assert forall|i: int, j: int| 0 <= i < j < w.excerpts.len() implies (
            #[trigger] w.excerpts[i]).id < (#[trigger] w.excerpts[j]).id by {
                if j < v.excerpts.len() {
                    assert(v.excerpts[i].id < v.excerpts[j].id);
                } else if i < v.excerpts.len() {
                    assert(v.excerpts[i].id < v.next_id);
                    assert(w.excerpts[j] == added[j - v.excerpts.len()]);
                } else {
                    assert(w.excerpts[i] == added[i - v.excerpts.len()]);
                    assert(w.excerpts[j] == added[j - v.excerpts.len()]);
                }
            }
            assert forall|i: int| 0 <= i < w.excerpts.len() implies (#[trigger] w.excerpts[i]).id
                < w.next_id by {
                if i < v.excerpts.len() {
                    assert(v.excerpts[i].id < v.next_id);
                } else {
                    assert(w.excerpts[i] == added[i - v.excerpts.len()]);
                }
            }
            assert forall|i: int| 0 <= i <= v.excerpts.len() implies w.excerpt_offset(i)
                == v.excerpt_offset(i) by {
                lemma_offset_prefix(w, v, i);
            }
        }
        Ok(ids)
    }
}


/// The text of the first `i` excerpts is as long as the offsets say.
pub proof fn lemma_text_len(v: MultiBufferView, i: int)
    requires
        v.wf(),
        0 <= i <= v.excerpts.len(),
    ensures
        i == 0 ==> v.text_upto(i).len() == 0,
        i > 0 ==> v.text_upto(i).len() == v.excerpt_offset(i - 1) + v.excerpt_len(i - 1),
    decreases i,
{
    if i > 0 {
        lemma_text_len(v, i - 1);
        lemma_excerpt_bounds(v, i - 1);
    }
}

impl MultiBufferView {
    /// The multi-buffer shows one whole buffer and nothing else.
    pub open spec fn is_singleton(self) -> bool {
        &&& self.excerpts.len() == 1
        &&& self.buffer_start(0) == 0
        &&& self.buffer_end(0) == self.buffer_of(0).content().len()
    }
}

/// A multi-buffer that shows one whole buffer passes that buffer through:
/// its text is the buffer's text, and every range of it is held by the one
/// excerpt at the same offsets.
pub proof fn lemma_singleton_passes_through(v: MultiBufferView)
    requires
        v.wf(),
        v.is_singleton(),
    ensures
        v.text() == v.buffer_of(0).content(),
        v.total_len() == v.buffer_of(0).content().len(),
        v.excerpt_offset(0) == 0,
        forall|a: int, b: int|
            0 <= a <= b <= v.total_len() ==> #[trigger] v.holds(0, a, b),
{
    let c = v.buffer_of(0).content();
    assert(v.excerpt_text(0) == c);
    assert(v.text_upto(0) == Seq::<char>::empty());
    assert(v.text_upto(1) =~= c);
}

impl MultiBuffer {
    /// Removes the excerpts with the given ids and returns how many there
    /// were. The other excerpts keep their order; those behind a removed one
    /// move up by its length.
    pub fn remove_excerpts(&mut self, ids: &Vec<u64>) -> (removed: usize)
        requires
            old(self).wf(),
        ensures
            final(self).wf(),
            final(self)@ == (MultiBufferView {
                excerpts: without_ids(old(self)@.excerpts, ids@),
                ..old(self)@
            }),
            removed == old(self)@.excerpts.len() - final(self)@.excerpts.len(),
    {
        let ghost v = self@;
        let next_id = self.next_id;
        let mut kept: Vec<Excerpt> = Vec::new();
        let mut i: usize = 0;
        proof {
            assert(v.excerpts.take(0) =~= Seq::empty());
        }
        while i < self.excerpts.len()
            invariant
                *self == *old(self),
                v == self@,
                v.wf(),
                next_id == v.next_id,
                i <= self.excerpts.len(),
                kept@ == without_ids(v.excerpts.take(i as int), ids@),
                kept@.len() <= i,
                forall|k: int| 0 <= k < kept@.len() ==> v.excerpt_wf(#[trigger] kept@[k]),
                forall|k: int| 0 <= k < kept@.len() ==> (#[trigger] kept@[k]).id < next_id,
                forall|k: int, j: int|
                    0 <= k < j < kept@.len() ==> (#[trigger] kept@[k]).id < (#[trigger] kept@[j]).id,
                forall|k: int, j: int|
                    0 <= k < kept@.len() && i <= j < v.excerpts.len() ==> (#[trigger] kept@[k]).id
                        < (#[trigger] v.excerpts[j]).id,
            decreases self.excerpts.len() - i,
        {
            let x = self.excerpts[i];
            let mut listed: bool = false;
            let mut j: usize = 0;
            while j < ids.len()
                invariant
                    j <= ids.len(),
                    listed <==> ids@.take(j as int).contains(x.id),
                decreases ids.len() - j,
            {
                if ids[j] == x.id {
                    listed = true;
                }
                proof {
                    let part = ids@.take(j + 1);
                    assert(part.drop_last() == ids@.take(j as int));
                    if ids@[j as int] == x.id {
                        assert(part[j as int] == x.id);
                    } else if part.contains(x.id) {
                        let at = choose|at: int| 0 <= at < part.len() && part[at] == x.id;
                        assert(ids@.take(j as int)[at] == x.id);
                    } else if ids@.take(j as int).contains(x.id) {
                        let at = choose|at: int|
                            0 <= at < ids@.take(j as int).len() && ids@.take(j as int)[at] == x.id;
                        assert(part[at] == x.id);
                    }
                }
                j += 1;
            }
            proof {
                assert(ids@.take(j as int) == ids@);
                assert(v.excerpts.take(i + 1).drop_last() == v.excerpts.take(i as int));
                assert(v.excerpts.take(i + 1).last() == x);
                assert(v.excerpt_wf(v.excerpts[i as int]));
                assert(v.excerpts[i as int].id < next_id);
                assert forall|j: int| i < j < v.excerpts.len() implies x.id < (
                #[trigger] v.excerpts[j]).id by {
                    assert(v.excerpts[i as int].id < v.excerpts[j].id);
                }
            }
            if !listed {
                kept.push(x);
            }
            i += 1;
        }
        proof {
            assert(v.excerpts.take(i as int) == v.excerpts);
        }
        let removed: usize = self.excerpts.len() - kept.len();
        self.excerpts = kept;
        proof {
            assert(self@.buffers == v.buffers);
        }
        removed
    }

    /// The text of the multi-buffer: the texts of its excerpts in order,
    /// with a line break between two of them where it has separators.
    pub fn text(&self) -> (out: Vec<char>)
        requires
            self.wf(),
        ensures
            out@ == self@.text(),
            out@.len() == self@.total_len(),
    {
        let ghost v = self@;
        let n: usize = self.excerpts.len();
        let mut out: Vec<char> = Vec::new();
        let mut i: usize = 0;
        while i < n
            invariant
                self.wf(),
                v == self@,
                n == v.excerpts.len(),
                i <= n,
                out@ == v.text_upto(i as int),
            decreases n - i,
        {
            let (start, end) = self.excerpt_bounds(i);
            proof {
                self.lemma_wf();
                assert(v.excerpt_wf(v.excerpts[i as int]));
            }
            let source = self.buffers[self.excerpts[i].buffer].chars();
            if i > 0 && self.separators {
                out.push('\n');
            }
            let ghost head = out@;
            assert(head =~= if i > 0 && v.separators {
                v.text_upto(i as int) + seq!['\n']
            } else {
                v.text_upto(i as int)
            });
            let mut k: usize = start;
            while k < end
                invariant
                    start <= k <= end <= source@.len(),
                    out@ == head + source@.subrange(start as int, k as int),
                decreases end - k,
            {
                out.push(source[k]);
                k += 1;
                assert(source@.subrange(start as int, k as int) == source@.subrange(
                    start as int,
                    k - 1,
                ).push(source@[k - 1]));
            }
            i += 1;
        }
        proof {
            self.lemma_wf();
            lemma_text_len(v, n as int);
        }
        out
    }

    /// The number of characters of the multi-buffer, or `None` where it is
    /// more than the machine can count.
    pub fn total_len(&self) -> (r: Option<usize>)
        requires
            self.wf(),
        ensures
            r is Some <==> self@.total_len() <= usize::MAX,
            r is Some ==> r->0 == self@.total_len(),
    {
        let ghost v = self@;
        let n: usize = self.excerpts.len();
        if n == 0 {
            return Some(0);
        }
        let gap: usize = if self.separators {
            1
        } else {
            0
        };
        let mut at: usize = 0;
        let mut i: usize = 0;
        while i < n
            invariant
                self.wf(),
                v == self@,
                n == v.excerpts.len(),
                i < n,
                gap == v.gap(),
                at == v.excerpt_offset(i as int),
            decreases n - i,
        {
            let (start, end) = self.excerpt_bounds(i);
            let len: usize = end - start;
            proof {
                self.lemma_wf();
                lemma_offsets_ascend(v, i as int, n - 1);
            }
            if len > usize::MAX - at {
                return None;
            }
            if i == n - 1 {
                return Some(at + len);
            }
            if gap > usize::MAX - at - len {
                proof {
                    lemma_offsets_ascend(v, i + 1, n - 1);
                    lemma_excerpt_bounds(v, i + 1);
                    assert(v.excerpt_offset(i + 1) == at + len + gap);
                }
                return None;
            }
            at = at + len + gap;
            i += 1;
        }
        None
    }

    /// The offset of excerpt `i` in the multi-buffer, or `None` where it is
    /// more than the machine can count.
    pub fn excerpt_start(&self, i: usize) -> (r: Option<usize>)
        requires
            self.wf(),
            i < self@.excerpts.len(),
        ensures
            r is Some <==> self@.excerpt_offset(i as int) <= usize::MAX,
            r is Some ==> r->0 == self@.excerpt_offset(i as int),
    {
        let ghost v = self@;
        let gap: usize = if self.separators {
            1
        } else {
            0
        };
        let mut at: usize = 0;
        let mut k: usize = 0;
        while k < i
            invariant
                self.wf(),
                v == self@,
                k <= i < v.excerpts.len(),
                gap == v.gap(),
                at == v.excerpt_offset(k as int),
            decreases i - k,
        {
            let (start, end) = self.excerpt_bounds(k);
            let len: usize = end - start;
            proof {
                self.lemma_wf();
                lemma_offsets_ascend_to(v, k + 1, i as int);
                lemma_offset_nonnegative(v, k + 1);
                lemma_excerpt_bounds(v, i as int);
                if k + 1 < i {
                    lemma_excerpt_bounds(v, k + 1);
                }
            }
            if len > usize::MAX - at || gap > usize::MAX - at - len {
                return None;
            }
            at = at + len + gap;
            k += 1;
        }
        Some(at)
    }

    /// An offset of the buffer of excerpt `i` as an offset of the
    /// multi-buffer, where the excerpt shows it. By this, selections and
    /// other positions of a member buffer are placed in the multi-buffer.
    pub fn to_multi_offset(&self, i: usize, buffer_offset: usize) -> (r: Option<usize>)
        requires
            self.wf(),
        ensures
            r is Some <==> i < self@.excerpts.len() && self@.buffer_start(i as int) <= buffer_offset
                <= self@.buffer_end(i as int) && self@.excerpt_offset(i as int) + (buffer_offset
                - self@.buffer_start(i as int)) <= usize::MAX,
            r is Some ==> r->0 == self@.excerpt_offset(i as int) + (buffer_offset
                - self@.buffer_start(i as int)),
    {
        if i >= self.excerpts.len() {
            return None;
        }
        let (start, end) = self.excerpt_bounds(i);
        if buffer_offset < start || buffer_offset > end {
            return None;
        }
        proof {
            self.lemma_wf();
            lemma_offset_nonnegative(self@, i as int);
        }
        match self.excerpt_start(i) {
            None => None,
            Some(at) => {
                let rel: usize = buffer_offset - start;
                if rel > usize::MAX - at {
                    None
                } else {
                    Some(at + rel)
                }
            },
        }
    }

    /// A multi-buffer that shows the whole of one buffer.
    pub fn singleton(buffer: Buffer) -> (m: MultiBuffer)
        requires
            buffer.wf(),
        ensures
            m.wf(),
            m@.buffers == seq![buffer@],
            m@.is_singleton(),
            m@.text() == buffer@.content(),
    {
        proof {
            buffer.lemma_wf();
            assert(buffer@.log.take(buffer@.revision()) == buffer@.log);
        }
        let len: usize = buffer.len();
        let mut m = MultiBuffer::new(false);
        let index = m.add_buffer(buffer);
        let mut ranges: Vec<ExcerptRange> = Vec::new();
        ranges.push(ExcerptRange { context_start: 0, context_end: len, primary: None });
        assert(range_fits(ranges@[0], len as int));
        assert(m@.buffers =~= seq![buffer@]);
        let r = m.push_excerpts(index, &ranges);
        proof {
            assert(r is Ok);
            let x = excerpt_for(buffer@, 0, 0, ranges@[0]);
            assert(m@.excerpts =~= seq![x]);
            assert(buffer@.resolve(x.context_start, buffer@.revision()) == 0) by {
                assert(buffer@.log.subrange(buffer@.revision(), buffer@.revision()) =~= Seq::empty());
            }
            assert(buffer@.resolve(x.context_end, buffer@.revision()) == len) by {
                assert(buffer@.log.subrange(buffer@.revision(), buffer@.revision()) =~= Seq::empty());
            }
            m.lemma_wf();
            lemma_singleton_passes_through(m@);
        }
        m
    }

    /// The one buffer that the multi-buffer shows as a whole, if that is
    /// what it does.
    pub fn as_singleton(&self) -> (r: Option<&Buffer>)
        requires
            self.wf(),
        ensures
            r is Some <==> self@.is_singleton(),
            r is Some ==> r->0@ == self@.buffer_of(0) && r->0.wf(),
    {
        if self.excerpts.len() != 1 {
            return None;
        }
        proof {
            self.lemma_wf();
            assert(self@.excerpt_wf(self@.excerpts[0]));
        }
        let (start, end) = self.excerpt_bounds(0);
        let b = &self.buffers[self.excerpts[0].buffer];
        if start == 0 && end == b.len() {
            Some(b)
        } else {
            None
        }
    }
}


/// One row of a snapshot's translation table: where an excerpt lies in the
/// multi-buffer and in its buffer.
#[derive(Clone, Copy, PartialEq, Eq, Structural, Debug)]
pub struct ExcerptEntry {
    pub excerpt_id: u64,
    pub buffer: usize,
    pub buffer_id: u64,
    /// The offset of the excerpt's first character in the multi-buffer.
    pub start: usize,
    /// The number of characters of the excerpt.
    pub len: usize,
    /// The offset of the excerpt's first character in its buffer.
    pub buffer_start: usize,
}

/// An offset of the multi-buffer as an offset of a member buffer.
#[derive(Clone, Copy, PartialEq, Eq, Structural, Debug)]
pub struct Location {
    /// The index of the excerpt in the snapshot's table.
    pub excerpt: usize,
    pub buffer: usize,
    pub buffer_id: u64,
    /// The offset in the member buffer.
    pub offset: usize,
}

/// What a snapshot holds: the composed text and the translation table.
pub ghost struct SnapshotView {
    pub text: Seq<char>,
    pub entries: Seq<ExcerptEntry>,
}

impl SnapshotView {
    /// The table starts at offset 0, its rows follow each other with at most
    /// one separator between two of them, and the last row ends with the
    /// text.
    pub open spec fn wf(self) -> bool {
        &&& self.entries.len() == 0 ==> self.text.len() == 0
        &&& self.entries.len() > 0 ==> self.entries[0].start == 0 && self.entries.last().start
            + self.entries.last().len == self.text.len()
        &&& forall|i: int|
            0 <= i < self.entries.len() ==> (#[trigger] self.entries[i]).buffer_start
                + self.entries[i].len <= usize::MAX
        &&& forall|i: int, j: int|
            0 <= i < j < self.entries.len() ==> (#[trigger] self.entries[i]).start
                + self.entries[i].len <= (#[trigger] self.entries[j]).start
        &&& forall|i: int|
            0 <= i < self.entries.len() - 1 ==> (#[trigger] self.entries[i + 1]).start
                <= self.entries[i].start + self.entries[i].len + 1
    }

    /// Row `i` is the last row that starts at or before `offset`.
    pub open spec fn last_at(self, i: int, offset: int) -> bool {
        &&& 0 <= i < self.entries.len()
        &&& self.entries[i].start <= offset
        &&& forall|j: int| i < j < self.entries.len() ==> (#[trigger] self.entries[j]).start > offset
    }
}

/// A read-only copy of a multi-buffer's text with the table that translates
/// its offsets into offsets of the member buffers.
pub struct MultiBufferSnapshot {
    text: Vec<char>,
    entries: Vec<ExcerptEntry>,
}

impl View for MultiBufferSnapshot {
    type V = SnapshotView;

    closed spec fn view(&self) -> SnapshotView {
        SnapshotView { text: self.text@, entries: self.entries@ }
    }
}

impl MultiBufferSnapshot {
    /// The composed text.
    pub fn text(&self) -> (t: &Vec<char>)
        ensures
            t@ == self@.text,
    {
        &self.text
    }

    /// The translation table, one row for each excerpt, in order.
    pub fn entries(&self) -> (e: &Vec<ExcerptEntry>)
        ensures
            e@ == self@.entries,
    {
        &self.entries
    }

    /// Translates an offset of the multi-buffer by binary search in the
    /// table. The offset belongs to the last excerpt that starts at or
    /// before it; so the offset between two excerpts that touch is the start
    /// of the second. There is no translation for an offset behind the text
    /// or where there is no excerpt.
    pub fn locate(&self, offset: usize) -> (r: Option<Location>)
        requires
            self@.wf(),
        ensures
            r is None <==> self@.entries.len() == 0 || offset > self@.text.len(),
            r is Some ==> {
                let loc = r->0;
                &&& self@.last_at(loc.excerpt as int, offset as int)
                &&& offset <= self@.entries[loc.excerpt as int].start
                    + self@.entries[loc.excerpt as int].len
                &&& loc.buffer == self@.entries[loc.excerpt as int].buffer
                &&& loc.buffer_id == self@.entries[loc.excerpt as int].buffer_id
                &&& loc.offset == self@.entries[loc.excerpt as int].buffer_start + (offset
                    - self@.entries[loc.excerpt as int].start)
            },
    {
        let ghost v = self@;
        let n: usize = self.entries.len();
        if n == 0 || offset > self.text.len() {
            return None;
        }
        let mut lo: usize = 0;
        let mut hi: usize = n;
        while hi - lo > 1
            invariant
                v == self@,
                v.wf(),
                n == v.entries.len(),
                lo < hi <= n,
                v.entries[lo as int].start <= offset,
                forall|j: int| hi <= j < n ==> (#[trigger] v.entries[j]).start > offset,
            decreases hi - lo,
        {
            let mid: usize = lo + (hi - lo) / 2;
            if self.entries[mid].start <= offset {
                lo = mid;
            } else {
                proof {
                    assert forall|j: int| mid <= j < n implies (#[trigger] v.entries[j]).start
                        > offset by {
                        if j > mid {
                            assert(v.entries[mid as int].start + v.entries[mid as int].len
                                <= v.entries[j].start);
                        }
                    }
                }
                hi = mid;
            }
        }
        let e = self.entries[lo];
        proof {
            if lo + 1 < n {
                assert(v.entries[lo + 1].start > offset);
                assert(v.entries[lo + 1].start <= v.entries[lo as int].start
                    + v.entries[lo as int].len + 1);
            } else {
                assert(v.entries.last() == v.entries[lo as int]);
            }
            assert(v.entries[lo as int].buffer_start + v.entries[lo as int].len <= usize::MAX);
        }
        Some(
            Location {
                excerpt: lo,
                buffer: e.buffer,
                buffer_id: e.buffer_id,
                offset: e.buffer_start + (offset - e.start),
            },
        )
    }
}

impl MultiBufferView {
    /// The row of the translation table for excerpt `i`.
    pub open spec fn entry(self, i: int) -> ExcerptEntry {
        ExcerptEntry {
            excerpt_id: self.excerpts[i].id,
            buffer: self.excerpts[i].buffer,
            buffer_id: self.excerpts[i].buffer_id,
            start: self.excerpt_offset(i) as usize,
            len: self.excerpt_len(i) as usize,
            buffer_start: self.buffer_start(i) as usize,
        }
    }
}

impl MultiBuffer {
    /// A read-only copy of the composed text with its translation table.
    /// Later edits do not reach it.
    pub fn snapshot(&self) -> (snap: MultiBufferSnapshot)
        requires
            self.wf(),
        ensures
            snap@.wf(),
            snap@.text == self@.text(),
            snap@.entries.len() == self@.excerpts.len(),
            forall|i: int|
                0 <= i < self@.excerpts.len() ==> (#[trigger] snap@.entries[i]) == self@.entry(i),
            forall|i: int|
                0 <= i < self@.excerpts.len() ==> (#[trigger] snap@.entries[i]).start
                    == self@.excerpt_offset(i) && snap@.entries[i].len == self@.excerpt_len(i)
                    && snap@.entries[i].buffer_start == self@.buffer_start(i),
    {
        let ghost v = self@;
        let n: usize = self.excerpts.len();
        let mut out: Vec<char> = Vec::new();
        let mut entries: Vec<ExcerptEntry> = Vec::new();
        let mut i: usize = 0;
        while i < n
            invariant
                self.wf(),
                v == self@,
                n == v.excerpts.len(),
                i <= n,
                out@ == v.text_upto(i as int),
                entries@.len() == i,
                forall|k: int|
                    0 <= k < i ==> (#[trigger] entries@[k]) == v.entry(k) && entries@[k].start
                        == v.excerpt_offset(k) && entries@[k].len == v.excerpt_len(k)
                        && entries@[k].buffer_start == v.buffer_start(k),
            decreases n - i,
        {
            let (start, end) = self.excerpt_bounds(i);
            proof {
                self.lemma_wf();
                assert(v.excerpt_wf(v.excerpts[i as int]));
                lemma_text_len(v, i as int);
            }
            let x = self.excerpts[i];
            let source = self.buffers[x.buffer].chars();
            if i > 0 && self.separators {
                out.push('\n');
            }
            let ghost head = out@;
            assert(head =~= if i > 0 && v.separators {
                v.text_upto(i as int) + seq!['\n']
            } else {
                v.text_upto(i as int)
            });
            let at: usize = out.len();
            assert(at == v.excerpt_offset(i as int));
            entries.push(
                ExcerptEntry {
                    excerpt_id: x.id,
                    buffer: x.buffer,
                    buffer_id: x.buffer_id,
                    start: at,
                    len: end - start,
                    buffer_start: start,
                },
            );
            let mut k: usize = start;
            while k < end
                invariant
                    start <= k <= end <= source@.len(),
                    out@ == head + source@.subrange(start as int, k as int),
                decreases end - k,
            {
                out.push(source[k]);
                k += 1;
                assert(source@.subrange(start as int, k as int) == source@.subrange(
                    start as int,
                    k - 1,
                ).push(source@[k - 1]));
            }
            i += 1;
        }
        let snap = MultiBufferSnapshot { text: out, entries };
        proof {
            self.lemma_wf();
            lemma_text_len(v, n as int);
            let w = snap@;
            assert forall|a: int, b: int| 0 <= a < b < w.entries.len() implies (
            #[trigger] w.entries[a]).start + w.entries[a].len <= (#[trigger] w.entries[b]).start by {
                lemma_offsets_ascend_to(v, a, b);
            }
            assert forall|a: int| 0 <= a < w.entries.len() - 1 implies (
            #[trigger] w.entries[a + 1]).start <= w.entries[a].start + w.entries[a].len + 1 by {
                assert(w.entries[a + 1].start == v.excerpt_offset(a + 1));
            }
            assert forall|a: int| 0 <= a < w.entries.len() implies (
            #[trigger] w.entries[a]).buffer_start + w.entries[a].len <= usize::MAX by {
                lemma_excerpt_bounds(v, a);
                assert(v.excerpt_wf(v.excerpts[a]));
                assert(self.buffers@[v.excerpts[a].buffer as int].wf());
                self.buffers@[v.excerpts[a].buffer as int].lemma_wf();
            }
        }
        snap
    }
}


impl MultiBufferView {
    /// Some excerpt holds the whole range `a..b`.
    pub open spec fn has_holder(self, a: int, b: int) -> bool {
        exists|i: int| 0 <= i < self.excerpts.len() && #[trigger] self.holds(i, a, b)
    }

    /// Excerpt `i` is the first that holds the whole range `a..b`.
    pub open spec fn is_first_holder(self, i: int, a: int, b: int) -> bool {
        &&& 0 <= i < self.excerpts.len()
        &&& self.holds(i, a, b)
        &&& forall|j: int| 0 <= j < i ==> !self.holds(j, a, b)
    }

    /// The first excerpt that holds the whole range `a..b`.
    pub open spec fn first_holder(self, a: int, b: int) -> int {
        choose|i: int| self.is_first_holder(i, a, b)
    }

    /// The edit can be forwarded: its range lies within the multi-buffer and
    /// within one excerpt.
    pub open spec fn translatable(self, e: EditSpec) -> bool {
        0 <= e.start <= e.end <= self.total_len() && self.has_holder(e.start, e.end)
    }

    /// The member buffer to which the edit is forwarded.
    pub open spec fn target(self, e: EditSpec) -> int {
        self.excerpts[self.first_holder(e.start, e.end)].buffer as int
    }

    /// The edit in the offsets of the member buffer it is forwarded to.
    pub open spec fn forwarded(self, e: EditSpec) -> EditSpec {
        let i = self.first_holder(e.start, e.end);
        let at = self.buffer_start(i) + (e.start - self.excerpt_offset(i));
        EditSpec { start: at, end: at + (e.end - e.start), text: e.text }
    }

    /// The batch that member `b` gets from the edits: those forwarded to it,
    /// in the order given.
    pub open spec fn batch_for(self, edits: Seq<EditSpec>, b: int) -> Seq<EditSpec>
        decreases edits.len(),
    {
        if edits.len() == 0 {
            Seq::empty()
        } else if self.target(edits.last()) == b {
            self.batch_for(edits.drop_last(), b).push(self.forwarded(edits.last()))
        } else {
            self.batch_for(edits.drop_last(), b)
        }
    }

    /// Member `b` gets edits and takes them.
    pub open spec fn takes(self, edits: Seq<EditSpec>, b: int) -> bool {
        self.batch_for(edits, b).len() > 0 && batch_accepted(
            self.batch_for(edits, b),
            self.buffers[b].content().len() as int,
        )
    }

    /// Member `b` gets edits and refuses them.
    pub open spec fn refuses(self, edits: Seq<EditSpec>, b: int) -> bool {
        self.batch_for(edits, b).len() > 0 && !batch_accepted(
            self.batch_for(edits, b),
            self.buffers[b].content().len() as int,
        )
    }

    /// The members in front of index `upto` that take their edits.
    pub open spec fn takers(self, edits: Seq<EditSpec>, upto: int) -> Seq<usize>
        decreases upto,
    {
        if upto <= 0 {
            Seq::empty()
        } else if self.takes(edits, upto - 1) {
            self.takers(edits, upto - 1).push((upto - 1) as usize)
        } else {
            self.takers(edits, upto - 1)
        }
    }

    /// The members in front of index `upto` that refuse their edits.
    pub open spec fn refusers(self, edits: Seq<EditSpec>, upto: int) -> Seq<usize>
        decreases upto,
    {
        if upto <= 0 {
            Seq::empty()
        } else if self.refuses(edits, upto - 1) {
            self.refusers(edits, upto - 1).push((upto - 1) as usize)
        } else {
            self.refusers(edits, upto - 1)
        }
    }

    /// The multi-buffer after every member in front of index `upto` that
    /// takes its edits has been edited.
    pub open spec fn after_many(self, edits: Seq<EditSpec>, upto: int) -> MultiBufferView {
        MultiBufferView {
            buffers: Seq::new(
                self.buffers.len(),
                |b: int|
                    if b < upto && self.takes(edits, b) {
                        self.buffers[b].edited(ordered(self.batch_for(edits, b)))
                    } else {
                        self.buffers[b]
                    },
            ),
            ..self
        }
    }

    /// Edit `k` is the first that cannot be forwarded.
    pub open spec fn stops_at(self, edits: Seq<EditSpec>, k: int) -> bool {
        &&& 0 <= k < edits.len()
        &&& !self.translatable(edits[k])
        &&& forall|j: int| 0 <= j < k ==> self.translatable(#[trigger] edits[j])
    }

    /// Every edit can be forwarded.
    pub open spec fn all_translatable(self, edits: Seq<EditSpec>) -> bool {
        forall|k: int| 0 <= k < edits.len() ==> self.translatable(#[trigger] edits[k])
    }
}

/// Only one excerpt is the first to hold a range.
pub proof fn lemma_first_holder(v: MultiBufferView, i: int, a: int, b: int)
    requires
        v.is_first_holder(i, a, b),
    ensures
        v.first_holder(a, b) == i,
        v.has_holder(a, b),
{
    let j = v.first_holder(a, b);
    assert(v.is_first_holder(j, a, b));
    if j < i {
        assert(!v.holds(j, a, b));
    } else if i < j {
        assert(!v.holds(i, a, b));
    }
}

/// Where one member of a well-formed multi-buffer is edited on, the result
/// is well formed too.
pub proof fn lemma_after_many_wf(v: MultiBufferView, edits: Seq<EditSpec>, upto: int)
    requires
        v.wf(),
        0 <= upto <= v.buffers.len(),
    ensures
        v.after_many(edits, upto).wf(),
        upto < v.buffers.len() && v.takes(edits, upto) ==> v.after_many(edits, upto + 1)
            == with_edited(v.after_many(edits, upto), upto, ordered(v.batch_for(edits, upto))),
        upto < v.buffers.len() && !v.takes(edits, upto) ==> v.after_many(edits, upto + 1)
            == v.after_many(edits, upto),
        upto < v.buffers.len() ==> v.after_many(edits, upto).buffers[upto] == v.buffers[upto],
        v.after_many(edits, 0) == v,
    decreases upto,
{
    assert(v.after_many(edits, 0).buffers =~= v.buffers);
    if upto > 0 {
        lemma_after_many_wf(v, edits, upto - 1);
        let before = v.after_many(edits, upto - 1);
        if v.takes(edits, upto - 1) {
            lemma_with_edited_wf(before, upto - 1, ordered(v.batch_for(edits, upto - 1)));
        }
    }
    if upto < v.buffers.len() {
        let here = v.after_many(edits, upto);
        let next = v.after_many(edits, upto + 1);
        if v.takes(edits, upto) {
            assert(next.buffers =~= with_edited(
                here,
                upto,
                ordered(v.batch_for(edits, upto)),
            ).buffers);
        } else {
            assert(next.buffers =~= here.buffers);
        }
    }
}


/// Where one edit of a multi-target request goes.
#[derive(Clone, Copy)]
struct Route {
    buffer: usize,
    start: usize,
    end: usize,
}

/// Where a member takes its edits, the list of takers is not empty.
pub proof fn lemma_takers_hold(v: MultiBufferView, edits: Seq<EditSpec>, upto: int, b: int)
    requires
        0 <= b < upto,
    ensures
        v.takes(edits, b) ==> v.takers(edits, upto).len() > 0,
        v.refuses(edits, b) ==> v.refusers(edits, upto).len() > 0,
    decreases upto,
{
    if b < upto - 1 {
        lemma_takers_hold(v, edits, upto - 1, b);
    }
}

impl MultiBuffer {
    /// Where the edit goes: the member buffer and the range in its offsets.
    fn route(&self, e: &Edit) -> (r: Result<Route, Error>)
        requires
            self.wf(),
        ensures
            match r {
                Ok(p) => {
                    &&& self@.translatable(e@)
                    &&& p.buffer == self@.target(e@)
                    &&& p.buffer < self@.buffers.len()
                    &&& (EditSpec { start: p.start as int, end: p.end as int, text: e.text@ })
                        == self@.forwarded(e@)
                },
                Err(x) => {
                    &&& !self@.translatable(e@)
                    &&& x == Error::InvalidRange <==> !(e.start <= e.end <= self@.total_len())
                    &&& x == Error::CrossExcerptEdit <==> e.start <= e.end <= self@.total_len()
                },
            },
    {
        if e.start > e.end || !self.within(e.end) {
            return Err(Error::InvalidRange);
        }
        let ghost v = self@;
        match self.find_excerpt(e.start, e.end) {
            None => {
                proof {
                    if v.has_holder(e.start as int, e.end as int) {
                        let i = choose|i: int|
                            0 <= i < v.excerpts.len() && #[trigger] v.holds(
                                i,
                                e.start as int,
                                e.end as int,
                            );
                        assert(!v.holds(i, e.start as int, e.end as int));
                    }
                }
                Err(Error::CrossExcerptEdit)
            },
            Some((i, rel)) => {
                let (from, _to) = self.excerpt_bounds(i);
                proof {
                    self.lemma_wf();
                    assert(v.is_first_holder(i as int, e.start as int, e.end as int));
                    lemma_first_holder(v, i as int, e.start as int, e.end as int);
                    assert(v.excerpt_wf(v.excerpts[i as int]));
                }
                let at: usize = from + rel;
                Ok(Route { buffer: self.excerpts[i].buffer, start: at, end: at + (e.end - e.start) })
            },
        }
    }

    /// Applies several edits, each given in the offsets that the
    /// multi-buffer has before the call. Every edit is first translated as
    /// `edit` translates it; where one cannot be, the first such edit decides
    /// the error and nothing is changed. Then each member buffer gets the
    /// edits forwarded to it as one batch, in the order given, and takes or
    /// refuses that batch on its own: the members are not edited as one
    /// transaction. Where all take theirs, the result lists the members that
    /// were edited. Where some take and some refuse, the result is
    /// `PartialMultiBufferFailure` with both lists, and the edits taken stay.
    /// Where none takes and some refuse, nothing has changed and the result
    /// is `InvalidRange`.
    pub fn edit_many(&mut self, edits: &Vec<Edit>) -> (r: Result<Vec<usize>, Error>)
        requires
            old(self).wf(),
        ensures
            final(self).wf(),
            match r {
                Ok(list) => {
                    &&& old(self)@.all_translatable(batch_view(edits@))
                    &&& list@ == old(self)@.takers(
                        batch_view(edits@),
                        old(self)@.buffers.len() as int,
                    )
                    &&& old(self)@.refusers(
                        batch_view(edits@),
                        old(self)@.buffers.len() as int,
                    ).len() == 0
                    &&& final(self)@ == old(self)@.after_many(
                        batch_view(edits@),
                        old(self)@.buffers.len() as int,
                    )
                },
                Err(Error::PartialMultiBufferFailure { succeeded, failed }) => {
                    &&& old(self)@.all_translatable(batch_view(edits@))
                    &&& succeeded@ == old(self)@.takers(
                        batch_view(edits@),
                        old(self)@.buffers.len() as int,
                    )
                    &&& failed@ == old(self)@.refusers(
                        batch_view(edits@),
                        old(self)@.buffers.len() as int,
                    )
                    &&& succeeded@.len() > 0
                    &&& failed@.len() > 0
                    &&& final(self)@ == old(self)@.after_many(
                        batch_view(edits@),
                        old(self)@.buffers.len() as int,
                    )
                },
                Err(Error::InvalidRange) => {
                    &&& final(self)@ == old(self)@
                    &&& (exists|k: int|
                        old(self)@.stops_at(batch_view(edits@), k) && !(0 <= (
                        #[trigger] batch_view(edits@)[k]).start <= batch_view(edits@)[k].end
                            <= old(self)@.total_len())) || (old(self)@.all_translatable(
                        batch_view(edits@),
                    ) && old(self)@.takers(
                        batch_view(edits@),
                        old(self)@.buffers.len() as int,
                    ).len() == 0 && old(self)@.refusers(
                        batch_view(edits@),
                        old(self)@.buffers.len() as int,
                    ).len() > 0)
                },
                Err(Error::CrossExcerptEdit) => {
                    &&& final(self)@ == old(self)@
                    &&& exists|k: int|
                        old(self)@.stops_at(batch_view(edits@), k) && 0 <= (#[trigger] batch_view(
                            edits@,
                        )[k]).start <= batch_view(edits@)[k].end <= old(self)@.total_len()
                },
                Err(_) => false,
            },
    {
        let ghost v = self@;
        let ghost es = batch_view(edits@);
        let mut routes: Vec<Route> = Vec::new();
        let mut k: usize = 0;
        while k < edits.len()
            invariant
                *self == *old(self),
                self.wf(),
                v == self@,
                es == batch_view(edits@),
                k <= edits.len(),
                routes@.len() == k,
                forall|j: int| 0 <= j < k ==> v.translatable(#[trigger] es[j]),
                forall|j: int|
                    0 <= j < k ==> (#[trigger] routes@[j]).buffer == v.target(es[j])
                        && routes@[j].buffer < v.buffers.len() && (EditSpec {
                        start: routes@[j].start as int,
                        end: routes@[j].end as int,
                        text: es[j].text,
                    }) == v.forwarded(es[j]),
            decreases edits.len() - k,
        {
            assert(es[k as int] == edits@[k as int]@);
            match self.route(&edits[k]) {
                Ok(p) => {
                    routes.push(p);
                },
                Err(x) => {
                    assert(v.stops_at(es, k as int));
                    return Err(x);
                },
            }
            k += 1;
        }
        let nb: usize = self.buffers.len();
        let mut succeeded: Vec<usize> = Vec::new();
        let mut failed: Vec<usize> = Vec::new();
        let mut b: usize = 0;
        proof {
            self.lemma_wf();
            lemma_after_many_wf(v, es, 0);
        }
        while b < nb
            invariant
                self.wf(),
                v == old(self)@,
                v.wf(),
                es == batch_view(edits@),
                nb == v.buffers.len(),
                nb == self.buffers@.len(),
                b <= nb,
                self@ == v.after_many(es, b as int),
                succeeded@ == v.takers(es, b as int),
                failed@ == v.refusers(es, b as int),
                routes@.len() == edits@.len(),
                forall|j: int| 0 <= j < es.len() ==> v.translatable(#[trigger] es[j]),
                forall|j: int|
                    0 <= j < es.len() ==> (#[trigger] routes@[j]).buffer == v.target(es[j])
                        && routes@[j].buffer < v.buffers.len() && (EditSpec {
                        start: routes@[j].start as int,
                        end: routes@[j].end as int,
                        text: es[j].text,
                    }) == v.forwarded(es[j]),
            decreases nb - b,
        {
            let mut batch: Vec<Edit> = Vec::new();
            let mut k: usize = 0;
            proof {
                assert(es.take(0) =~= Seq::empty());
                assert(batch_view(batch@) =~= Seq::empty());
            }
            while k < edits.len()
                invariant
                    es == batch_view(edits@),
                    k <= edits.len(),
                    routes@.len() == edits@.len(),
                    forall|j: int|
                        0 <= j < es.len() ==> (#[trigger] routes@[j]).buffer == v.target(es[j])
                            && (EditSpec {
                            start: routes@[j].start as int,
                            end: routes@[j].end as int,
                            text: es[j].text,
                        }) == v.forwarded(es[j]),
                    batch_view(batch@) == v.batch_for(es.take(k as int), b as int),
                decreases edits.len() - k,
            {
                let p = routes[k];
                proof {
                    assert(es.take(k + 1).drop_last() == es.take(k as int));
                    assert(es.take(k + 1).last() == es[k as int]);
                    assert(es[k as int].text == edits@[k as int].text@);
                }
                if p.buffer == b {
                    let ghost had = batch_view(batch@);
                    let fresh = Edit { start: p.start, end: p.end, text: edits[k].text.clone() };
                    assert(fresh@ == v.forwarded(es[k as int]));
                    batch.push(fresh);
                    assert(batch_view(batch@) =~= had.push(fresh@));
                }
                k += 1;
            }
            proof {
                assert(es.take(k as int) == es);
                lemma_after_many_wf(v, es, b as int);
            }
            if batch.len() > 0 {
                let ghost now = self@;
                let ghost members = self.buffers@;
                let ghost given = batch_view(batch@);
                assert(self.buffers@[b as int]@ == v.buffers[b as int]);
                let r = self.buffers[b].edit(batch);
                match r {
                    Ok(_) => {
                        proof {
                            lemma_with_edited_wf(now, b as int, ordered(given));
                            assert(self@.buffers =~= with_edited(
                                now,
                                b as int,
                                ordered(given),
                            ).buffers);
                            assert forall|j: int| 0 <= j < self.buffers@.len() implies (
                            #[trigger] self.buffers@[j]).wf() by {
                                if j != b {
                                    assert(self.buffers@[j] == members[j]);
                                }
                            }
                        }
                        succeeded.push(b);
                    },
                    Err(_) => {
                        proof {
                            assert(self@.buffers =~= now.buffers);
                            assert forall|j: int| 0 <= j < self.buffers@.len() implies (
                            #[trigger] self.buffers@[j]).wf() by {
                                if j != b {
                                    assert(self.buffers@[j] == members[j]);
                                }
                            }
                        }
                        failed.push(b);
                    },
                }
            }
            b += 1;
        }
        if failed.len() == 0 {
            Ok(succeeded)
        } else if succeeded.len() == 0 {
            proof {
                assert(self@.buffers =~= v.buffers) by {
                    assert forall|j: int| 0 <= j < nb implies !v.takes(es, j) by {
                        lemma_takers_hold(v, es, nb as int, j);
                    }
                }
            }
            Err(Error::InvalidRange)
        } else {
            Err(Error::PartialMultiBufferFailure { succeeded, failed })
        }
    }
}


/// A replacement within the second of two joined texts is a replacement in
/// that text.
pub proof fn lemma_apply_one_behind(head: Seq<char>, tail: Seq<char>, e: EditSpec)
    requires
        edit_fits(e, tail.len() as int),
    ensures
        apply_one(
            head + tail,
            EditSpec { start: head.len() + e.start, end: head.len() + e.end, text: e.text },
        ) == head + apply_one(tail, e),
{
    let moved = EditSpec { start: head.len() + e.start, end: head.len() + e.end, text: e.text };
    assert(apply_one(head + tail, moved) =~= head + apply_one(tail, e));
}

/// A replacement within the first of two joined texts is a replacement in
/// that text.
pub proof fn lemma_apply_one_in_front(head: Seq<char>, tail: Seq<char>, e: EditSpec)
    requires
        edit_fits(e, head.len() as int),
    ensures
        apply_one(head + tail, e) == apply_one(head, e) + tail,
{
    assert(apply_one(head + tail, e) =~= apply_one(head, e) + tail);
}

/// After a batch of one edit, an anchor resolves to where that edit shifts
/// the offset it had.
pub proof fn lemma_resolve_after_one(b: BufferView, e: EditSpec, x: Anchor)
    requires
        b.wf(),
        b.owns(x),
        edit_fits(e, b.content().len() as int),
    ensures
        b.edited(seq![e]).resolve(x, b.revision() + 1) == shift_one(
            b.resolve(x, b.revision()),
            e,
            x.bias,
        ),
        b.edited(seq![e]).content() == apply_one(b.content(), e),
        batch_valid(seq![e], b.content().len() as int),
{
    let batch = seq![e];
    let w = b.edited(batch);
    assert(batch.drop_last() =~= Seq::<EditSpec>::empty());
    assert(batch.last() == e);
    lemma_edited(b, batch);
    let seg = w.log.subrange(x.revision as int, b.revision() + 1);
    assert(seg.drop_last() == b.log.subrange(x.revision as int, b.revision()));
    assert(seg.last() == batch);
    let o = b.resolve(x, b.revision());
    assert(shift_batch(o, batch, x.bias) == shift_one(o, e, x.bias)) by {
        reveal_with_fuel(shift_batch, 2);
    }
    assert(apply_batch(b.content(), batch) == apply_one(b.content(), e)) by {
        reveal_with_fuel(apply_batch, 2);
    }
}

impl MultiBufferView {
    /// No other excerpt shows the buffer of excerpt `i`.
    pub open spec fn shown_once(self, i: int) -> bool {
        forall|j: int|
            0 <= j < self.excerpts.len() && j != i ==> (#[trigger] self.excerpts[j]).buffer
                != self.excerpts[i].buffer
    }

    /// The edit of the range `a..b`, which excerpt `i` holds, in the offsets
    /// of that excerpt's buffer.
    pub open spec fn forwarded_to(self, i: int, a: int, b: int, text: Seq<char>) -> EditSpec {
        let at = self.buffer_start(i) + (a - self.excerpt_offset(i));
        EditSpec { start: at, end: at + (b - a), text }
    }
}

/// What forwarding an edit does to the excerpts: the excerpt that holds the
/// range has the range replaced in its text, and the excerpts of other
/// buffers stay as they are.
pub proof fn lemma_forwarded_excerpts(
    v: MultiBufferView,
    i: int,
    a: int,
    b: int,
    text: Seq<char>,
)
    requires
        v.wf(),
        0 <= i < v.excerpts.len(),
        a <= b,
        v.holds(i, a, b),
    ensures
        ({
            let e = v.forwarded_to(i, a, b, text);
            let w = with_edited(v, v.excerpts[i].buffer as int, seq![e]);
            &&& w.wf()
            &&& w.excerpt_text(i) == apply_one(
                v.excerpt_text(i),
                EditSpec { start: a - v.excerpt_offset(i), end: b - v.excerpt_offset(i), text },
            )
            &&& edit_fits(
                EditSpec { start: a - v.excerpt_offset(i), end: b - v.excerpt_offset(i), text },
                v.excerpt_text(i).len() as int,
            )
            &&& forall|j: int|
                0 <= j < v.excerpts.len() && v.excerpts[j].buffer != v.excerpts[i].buffer
                    ==> #[trigger] w.excerpt_text(j) == v.excerpt_text(j)
        }),
{
    let x = v.excerpts[i];
    let buf = x.buffer as int;
    let bv = v.buffers[buf];
    let e = v.forwarded_to(i, a, b, text);
    let w = with_edited(v, buf, seq![e]);
    let local = EditSpec { start: a - v.excerpt_offset(i), end: b - v.excerpt_offset(i), text };
    assert(v.excerpt_wf(x));
    assert(bv.wf());
    lemma_excerpt_bounds(v, i);
    lemma_resolve_after_one(bv, e, x.context_start);
    lemma_resolve_after_one(bv, e, x.context_end);
    lemma_with_edited_wf(v, buf, seq![e]);
    let from = v.buffer_start(i);
    let to = v.buffer_end(i);
    let c = bv.content();
    assert(w.buffer_of(i) == bv.edited(seq![e]));
    assert(w.buffer_start(i) == from);
    assert(w.buffer_end(i) == to + text.len() - (b - a));
    assert(w.excerpt_text(i) =~= apply_one(v.excerpt_text(i), local));
    assert forall|j: int|
        0 <= j < v.excerpts.len() && v.excerpts[j].buffer != v.excerpts[i].buffer implies #[trigger] w.excerpt_text(
        j,
    ) == v.excerpt_text(j) by {
        assert(w.buffer_of(j) == v.buffer_of(j));
    }
}

/// What forwarding an edit does to the text in front of excerpt `k`: up to
/// the excerpt that holds the range nothing changes, and from there on the
/// range is replaced.
pub proof fn lemma_forwarded_text_upto(
    v: MultiBufferView,
    i: int,
    a: int,
    b: int,
    text: Seq<char>,
    k: int,
)
    requires
        v.wf(),
        0 <= i < v.excerpts.len(),
        a <= b,
        v.holds(i, a, b),
        v.shown_once(i),
        0 <= k <= v.excerpts.len(),
    ensures
        ({
            let w = with_edited(
                v,
                v.excerpts[i].buffer as int,
                seq![v.forwarded_to(i, a, b, text)],
            );
            &&& k <= i ==> w.text_upto(k) == v.text_upto(k)
            &&& k > i ==> w.text_upto(k) == apply_one(
                v.text_upto(k),
                EditSpec { start: a, end: b, text },
            )
        }),
    decreases k,
{
    let w = with_edited(v, v.excerpts[i].buffer as int, seq![v.forwarded_to(i, a, b, text)]);
    let whole = EditSpec { start: a, end: b, text };
    if k > 0 {
        lemma_forwarded_text_upto(v, i, a, b, text, k - 1);
        lemma_forwarded_excerpts(v, i, a, b, text);
        lemma_text_len(v, k - 1);
        lemma_text_len(v, k);
        lemma_excerpt_bounds(v, k - 1);
        lemma_offset_nonnegative(v, i);
        let head = if k == 1 || !v.separators {
            v.text_upto(k - 1)
        } else {
            v.text_upto(k - 1) + seq!['\n']
        };
        assert(v.text_upto(k) == head + v.excerpt_text(k - 1));
        if k - 1 < i {
            assert(v.excerpts[k - 1].buffer != v.excerpts[i].buffer);
            assert(w.excerpt_text(k - 1) == v.excerpt_text(k - 1));
        } else if k - 1 == i {
            let local = EditSpec {
                start: a - v.excerpt_offset(i),
                end: b - v.excerpt_offset(i),
                text,
            };
            assert(head.len() == v.excerpt_offset(i));
            assert(w.text_upto(k) == head + w.excerpt_text(i));
            lemma_apply_one_behind(head, v.excerpt_text(i), local);
        } else {
            assert(v.excerpts[k - 1].buffer != v.excerpts[i].buffer);
            assert(w.excerpt_text(k - 1) == v.excerpt_text(k - 1));
            lemma_offsets_ascend_to(v, i, k - 1);
            lemma_text_len(v, i + 1);
            assert(b <= v.text_upto(k - 1).len());
            let grown = if k == 1 || !v.separators {
                apply_one(v.text_upto(k - 1), whole)
            } else {
                apply_one(v.text_upto(k - 1), whole) + seq!['\n']
            };
            assert(w.text_upto(k) == grown + v.excerpt_text(k - 1));
            if k == 1 || !v.separators {
                lemma_apply_one_in_front(v.text_upto(k - 1), v.excerpt_text(k - 1), whole);
            } else {
                lemma_apply_one_in_front(v.text_upto(k - 1), seq!['\n'], whole);
                lemma_apply_one_in_front(
                    v.text_upto(k - 1) + seq!['\n'],
                    v.excerpt_text(k - 1),
                    whole,
                );
            }
        }
    }
}

/// An edit made through the multi-buffer is an edit of its text: where the
/// buffer of the excerpt that holds the range shows in no other excerpt,
/// forwarding the edit to that buffer replaces the range in the text of the
/// multi-buffer and changes nothing else of it.
pub proof fn lemma_edit_replaces_text(v: MultiBufferView, i: int, a: int, b: int, text: Seq<char>)
    requires
        v.wf(),
        0 <= i < v.excerpts.len(),
        a <= b,
        v.holds(i, a, b),
        v.shown_once(i),
    ensures
        with_edited(v, v.excerpts[i].buffer as int, seq![v.forwarded_to(i, a, b, text)]).text()
            == apply_one(v.text(), EditSpec { start: a, end: b, text }),
{
    lemma_forwarded_text_upto(v, i, a, b, text, v.excerpts.len() as int);
}

} // verus!
