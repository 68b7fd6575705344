use vstd::prelude::*;
use crate::error::Error;
use crate::text::{chars_of, string_of};

verus! {

/// Which side of text inserted exactly at an anchor the anchor stays on.
#[derive(Clone, Copy, PartialEq, Eq, Structural, Debug)]
pub enum Bias {
    /// The anchor stays in front of the inserted text.
    Before,
    /// The anchor moves behind the inserted text.
    After,
}

/// A handle to a logical position in a buffer. It records the offset at the
/// revision it was created at and never refers to the buffer directly.
#[derive(Clone, Copy, PartialEq, Eq, Structural, Debug)]
pub struct Anchor {
    pub buffer_id: u64,
    pub revision: u64,
    pub offset: usize,
    pub bias: Bias,
}

/// One replacement: the characters in `start..end` give way to `text`.
#[derive(Clone, Debug, PartialEq, Eq)]
pub struct Edit {
    pub start: usize,
    pub end: usize,
    pub text: Vec<char>,
}

/// The mathematical content of an [`Edit`].
pub ghost struct EditSpec {
    pub start: int,
    pub end: int,
    pub text: Seq<char>,
}

impl View for Edit {
    type V = EditSpec;

    open spec fn view(&self) -> EditSpec {
        EditSpec { start: self.start as int, end: self.end as int, text: self.text@ }
    }
}

/// The batch of replacements that a vector of edits stands for.
pub open spec fn batch_view(edits: Seq<Edit>) -> Seq<EditSpec> {
    Seq::new(edits.len(), |i: int| edits[i]@)
}

/// The edit lies within a text of `len` characters and is not reversed.
pub open spec fn edit_fits(e: EditSpec, len: int) -> bool {
    0 <= e.start <= e.end <= len
}

/// A batch is in order for a text of `len` characters when every range
/// lies within the text and the ranges come in ascending order without
/// overlap. Ranges may touch.
pub open spec fn batch_valid(batch: Seq<EditSpec>, len: int) -> bool {
    &&& forall|i: int| 0 <= i < batch.len() ==> edit_fits(#[trigger] batch[i], len)
    &&& forall|i: int, j: int|
        0 <= i < j < batch.len() ==> (#[trigger] batch[i]).end <= (#[trigger] batch[j]).start
}

/// `a` does not come behind `b` in ascending order: it starts earlier, or
/// at the same offset and ends no later.
pub open spec fn comes_first(a: EditSpec, b: EditSpec) -> bool {
    a.start < b.start || (a.start == b.start && a.end <= b.end)
}

/// The edits with `e` put behind the last edit that does not come behind it.
pub open spec fn placed(edits: Seq<EditSpec>, e: EditSpec) -> Seq<EditSpec>
    decreases edits.len(),
{
    if edits.len() == 0 {
        seq![e]
    } else if comes_first(edits.last(), e) {
        edits.push(e)
    } else {
        placed(edits.drop_last(), e).push(edits.last())
    }
}

/// The edits in ascending order of their ranges. Edits with the same range
/// keep the order they were given in, so several insertions at one offset
/// are applied in the order given.
pub open spec fn ordered(batch: Seq<EditSpec>) -> Seq<EditSpec>
    decreases batch.len(),
{
    if batch.len() == 0 {
        batch
    } else {
        placed(ordered(batch.drop_last()), batch.last())
    }
}

/// A batch can be applied to a text of `len` characters when its ranges lie
/// within the text and, put in ascending order, do not overlap. The ranges
/// may be given in any order.
pub open spec fn batch_accepted(batch: Seq<EditSpec>, len: int) -> bool {
    batch_valid(ordered(batch), len)
}

/// The text after one replacement.
pub open spec fn apply_one(c: Seq<char>, e: EditSpec) -> Seq<char> {
    c.subrange(0, e.start) + e.text + c.subrange(e.end, c.len() as int)
}

/// The text after a whole batch. All ranges refer to the text before the
/// batch, so the last range is replaced first: that leaves the offsets of the
/// earlier ranges untouched.
pub open spec fn apply_batch(c: Seq<char>, batch: Seq<EditSpec>) -> Seq<char>
    decreases batch.len(),
{
    if batch.len() == 0 {
        c
    } else {
        apply_batch(apply_one(c, batch.last()), batch.drop_last())
    }
}

/// Where an offset lands after one replacement. Offsets in front of the
/// replaced range stay, offsets behind it move with the text that follows,
/// and an offset that the range touches collapses to the boundary of the new
/// text that its bias names.
pub open spec fn shift_one(o: int, e: EditSpec, bias: Bias) -> int {
    if o < e.start {
        o
    } else if o > e.end {
        o + e.text.len() - (e.end - e.start)
    } else {
        match bias {
            Bias::Before => e.start,
            Bias::After => e.start + e.text.len(),
        }
    }
}

/// Where an offset lands after a whole batch, replayed in the order in which
/// `apply_batch` replaces the ranges.
pub open spec fn shift_batch(o: int, batch: Seq<EditSpec>, bias: Bias) -> int
    decreases batch.len(),
{
    if batch.len() == 0 {
        o
    } else {
        shift_batch(shift_one(o, batch.last(), bias), batch.drop_last(), bias)
    }
}

/// The text obtained from `initial` by applying the batches of `log` in order.
pub open spec fn replay(initial: Seq<char>, log: Seq<Seq<EditSpec>>) -> Seq<char>
    decreases log.len(),
{
    if log.len() == 0 {
        initial
    } else {
        apply_batch(replay(initial, log.drop_last()), log.last())
    }
}

/// Where an offset lands after the batches of `log`, applied in order.
pub open spec fn track(o: int, log: Seq<Seq<EditSpec>>, bias: Bias) -> int
    decreases log.len(),
{
    if log.len() == 0 {
        o
    } else {
        shift_batch(track(o, log.drop_last(), bias), log.last(), bias)
    }
}

/// The batch that made revision `r + 1` was in order for the text of
/// revision `r`.
pub open spec fn batch_valid_at(initial: Seq<char>, log: Seq<Seq<EditSpec>>, r: int) -> bool {
    batch_valid(log[r], replay(initial, log.take(r)).len() as int)
}

/// Every batch of the log was in order for the text it was applied to.
pub open spec fn log_valid(initial: Seq<char>, log: Seq<Seq<EditSpec>>) -> bool {
    forall|r: int| 0 <= r < log.len() ==> #[trigger] batch_valid_at(initial, log, r)
}

/// One replacement keeps an offset within the text.
pub proof fn lemma_shift_one_in_bounds(c: Seq<char>, e: EditSpec, o: int, bias: Bias)
    requires
        edit_fits(e, c.len() as int),
        0 <= o <= c.len(),
    ensures
        0 <= shift_one(o, e, bias) <= apply_one(c, e).len(),
        apply_one(c, e).len() == c.len() + e.text.len() - (e.end - e.start),
{
}

/// The earlier edits of a batch in order are a batch in order for the text
/// in which the last range was replaced.
pub proof fn lemma_batch_valid_prefix(c: Seq<char>, batch: Seq<EditSpec>)
    requires
        batch_valid(batch, c.len() as int),
        batch.len() > 0,
    ensures
        batch_valid(batch.drop_last(), apply_one(c, batch.last()).len() as int),
        edit_fits(batch.last(), c.len() as int),
{
    let rest = batch.drop_last();
    let last = batch.last();
    assert(edit_fits(batch[batch.len() - 1], c.len() as int));
    assert forall|i: int| 0 <= i < rest.len() implies edit_fits(
        #[trigger] rest[i],
        apply_one(c, last).len() as int,
    ) by {
        assert(edit_fits(batch[i], c.len() as int));
        assert(batch[i].end <= batch[batch.len() - 1].start);
    }
    assert forall|i: int, j: int| 0 <= i < j < rest.len() implies (#[trigger] rest[i]).end <= (
    #[trigger] rest[j]).start by {
        assert(batch[i].end <= batch[j].start);
    }
}

/// A batch in order keeps an offset within the text.
pub proof fn lemma_shift_batch_in_bounds(c: Seq<char>, batch: Seq<EditSpec>, o: int, bias: Bias)
    requires
        batch_valid(batch, c.len() as int),
        0 <= o <= c.len(),
    ensures
        0 <= shift_batch(o, batch, bias) <= apply_batch(c, batch).len(),
    decreases batch.len(),
{
    if batch.len() > 0 {
        lemma_batch_valid_prefix(c, batch);
        lemma_shift_one_in_bounds(c, batch.last(), o, bias);
        lemma_shift_batch_in_bounds(
            apply_one(c, batch.last()),
            batch.drop_last(),
            shift_one(o, batch.last(), bias),
            bias,
        );
    }
}


/// What a buffer is: its identity, the text it started with and the log of
/// the batches applied since. The present text and every earlier one follow
/// from these.
pub ghost struct BufferView {
    pub id: u64,
    pub initial: Seq<char>,
    pub log: Seq<Seq<EditSpec>>,
    /// The text that the buffer is compared with, where it has one.
    pub diff_base: Option<Seq<char>>,
}

impl BufferView {
    /// The number of batches applied so far.
    pub open spec fn revision(self) -> int {
        self.log.len() as int
    }

    /// The text as it was at revision `r`.
    pub open spec fn content_at(self, r: int) -> Seq<char> {
        replay(self.initial, self.log.take(r))
    }

    /// The present text.
    pub open spec fn content(self) -> Seq<char> {
        replay(self.initial, self.log)
    }

    /// Every batch of the log was in order when it was applied.
    pub open spec fn wf(self) -> bool {
        log_valid(self.initial, self.log)
    }

    /// The buffer after one more batch.
    pub open spec fn edited(self, batch: Seq<EditSpec>) -> BufferView {
        BufferView { log: self.log.push(batch), ..self }
    }

    /// The anchor was made by this buffer at a revision it has reached, at an
    /// offset within the text of that revision.
    pub open spec fn owns(self, a: Anchor) -> bool {
        &&& a.buffer_id == self.id
        &&& a.revision <= self.revision()
        &&& a.offset <= self.content_at(a.revision as int).len()
    }

    /// The anchor can be resolved against revision `target`.
    pub open spec fn resolvable(self, a: Anchor, target: int) -> bool {
        &&& self.owns(a)
        &&& a.revision <= target <= self.revision()
    }

    /// The offset of the anchor at revision `target`: its recorded offset,
    /// tracked through the batches between its creation and `target`.
    pub open spec fn resolve(self, a: Anchor, target: int) -> int {
        track(a.offset as int, self.log.subrange(a.revision as int, target), a.bias)
    }
}

/// Replaying a well-formed log keeps a tracked offset within the text.
pub proof fn lemma_track_in_bounds(v: BufferView, from: int, to: int, o: int, bias: Bias)
    requires
        v.wf(),
        0 <= from <= to <= v.revision(),
        0 <= o <= v.content_at(from).len(),
    ensures
        0 <= track(o, v.log.subrange(from, to), bias) <= v.content_at(to).len(),
    decreases to - from,
{
    let seg = v.log.subrange(from, to);
    if from < to {
        assert(seg.drop_last() == v.log.subrange(from, to - 1));
        assert(seg.last() == v.log[to - 1]);
        lemma_track_in_bounds(v, from, to - 1, o, bias);
        assert(v.log.take(to).drop_last() == v.log.take(to - 1));
        assert(v.log.take(to).last() == v.log[to - 1]);
        assert(batch_valid_at(v.initial, v.log, to - 1));
        lemma_shift_batch_in_bounds(
            v.content_at(to - 1),
            v.log[to - 1],
            track(o, seg.drop_last(), bias),
            bias,
        );
    }
}

/// One more batch in order leaves the earlier texts as they were.
pub proof fn lemma_edited(v: BufferView, batch: Seq<EditSpec>)
    requires
        v.wf(),
        batch_valid(batch, v.content().len() as int),
    ensures
        v.edited(batch).wf(),
        v.edited(batch).content() == apply_batch(v.content(), batch),
        forall|r: int| 0 <= r <= v.revision() ==> v.edited(batch).content_at(r) == v.content_at(r),
{
    let w = v.edited(batch);
    assert(w.log.drop_last() == v.log);
    assert forall|r: int| 0 <= r <= v.revision() implies w.content_at(r) == v.content_at(r) by {
        assert(w.log.take(r) == v.log.take(r));
    }
    assert(v.log.take(v.revision()) == v.log);
    assert forall|r: int| 0 <= r < w.log.len() implies #[trigger] batch_valid_at(
        w.initial,
        w.log,
        r,
    ) by {
        assert(w.log.take(r) == v.log.take(r));
        if r < v.log.len() {
            assert(w.log[r] == v.log[r]);
            assert(batch_valid_at(v.initial, v.log, r));
        } else {
            assert(w.log[r] == batch);
        }
    }
}

/// A mutable, versioned text. Each applied batch of edits makes a new
/// revision; the log of batches lets any anchor be resolved at any revision
/// from its creation on.
pub struct Buffer {
    id: u64,
    content: Vec<char>,
    history: Vec<Vec<Edit>>,
    lengths: Vec<usize>,
    initial: Ghost<Seq<char>>,
    diff_base: Option<String>,
}

/// The characters of a text that may be absent.
pub open spec fn text_view(text: Option<String>) -> Option<Seq<char>> {
    match text {
        Some(t) => Some(t@),
        None => None,
    }
}

/// An immutable copy of a buffer's text, tagged with the revision it was
/// taken at.
pub struct BufferSnapshot {
    pub buffer_id: u64,
    pub revision: u64,
    pub content: Vec<char>,
}

/// The log that a vector of batches stands for.
pub open spec fn log_view(history: Seq<Vec<Edit>>) -> Seq<Seq<EditSpec>> {
    Seq::new(history.len(), |r: int| batch_view(history[r]@))
}

impl View for Buffer {
    type V = BufferView;

    closed spec fn view(&self) -> BufferView {
        BufferView {
            id: self.id,
            initial: self.initial@,
            log: log_view(self.history@),
            diff_base: text_view(self.diff_base),
        }
    }
}

/// Whether the edits, as they are given, form a batch in order for a text of
/// `len` characters.
pub fn check_batch(edits: &Vec<Edit>, len: usize) -> (ok: bool)
    ensures
        ok == batch_valid(batch_view(edits@), len as int),
{
    let ghost batch = batch_view(edits@);
    let mut floor: usize = 0;
    let mut i: usize = 0;
    while i < edits.len()
        invariant
            i <= edits.len(),
            batch == batch_view(edits@),
            floor <= len,
            forall|k: int| 0 <= k < i ==> edit_fits(#[trigger] batch[k], len as int),
            i == 0 ==> floor == 0,
            i > 0 ==> floor == batch[i - 1].end,
            forall|k: int, j: int|
                0 <= k < j < i ==> (#[trigger] batch[k]).end <= (#[trigger] batch[j]).start,
        decreases edits.len() - i,
    {
        let e = &edits[i];
        assert(batch[i as int] == e@);
        if e.start < floor || e.end < e.start || len < e.end {
            proof {
                if e.start < floor {
                    if batch_valid(batch, len as int) {
                        assert(batch[i - 1].end <= batch[i as int].start);
                    }
                } else {
                    assert(!edit_fits(batch[i as int], len as int));
                }
            }
            return false;
        }
        floor = e.end;
        i += 1;
    }
    true
}

/// The text in which the characters of one range gave way to the edit's text.
pub fn splice(content: &Vec<char>, e: &Edit) -> (out: Vec<char>)
    requires
        edit_fits(e@, content.len() as int),
    ensures
        out@ == apply_one(content@, e@),
{
    let mut out: Vec<char> = Vec::new();
    let mut i: usize = 0;
    while i < e.start
        invariant
            i <= e.start <= content.len(),
            out@ == content@.subrange(0, i as int),
        decreases e.start - i,
    {
        out.push(content[i]);
        i += 1;
        assert(content@.subrange(0, i as int) == content@.subrange(0, i - 1).push(content@[i - 1]));
    }
    let mut j: usize = 0;
    while j < e.text.len()
        invariant
            j <= e.text.len(),
            out@ == content@.subrange(0, e.start as int) + e.text@.subrange(0, j as int),
        decreases e.text.len() - j,
    {
        out.push(e.text[j]);
        j += 1;
        assert(e.text@.subrange(0, j as int) == e.text@.subrange(0, j - 1).push(e.text@[j - 1]));
    }
    assert(e.text@.subrange(0, e.text.len() as int) == e.text@);
    let mut k: usize = e.end;
    while k < content.len()
        invariant
            e.end <= k <= content.len(),
            out@ == content@.subrange(0, e.start as int) + e.text@ + content@.subrange(
                e.end as int,
                k as int,
            ),
        decreases content.len() - k,
    {
        out.push(content[k]);
        k += 1;
        assert(content@.subrange(e.end as int, k as int) == content@.subrange(
            e.end as int,
            k - 1,
        ).push(content@[k - 1]));
    }
    out
}


/// Where the edit at index `k - 1` does not come behind `e` and every edit
/// from index `k` on does, `e` is put at index `k`.
pub proof fn lemma_placed_at(edits: Seq<EditSpec>, e: EditSpec, k: int)
    requires
        0 <= k <= edits.len(),
        k > 0 ==> comes_first(edits[k - 1], e),
        forall|j: int| k <= j < edits.len() ==> !comes_first(#[trigger] edits[j], e),
    ensures
        placed(edits, e) == edits.insert(k, e),
    decreases edits.len(),
{
    let n = edits.len() as int;
    if n == 0 {
        assert(seq![e] =~= edits.insert(k, e));
    } else if k == n {
        assert(edits.push(e) =~= edits.insert(k, e));
    } else {
        assert(!comes_first(edits[n - 1], e));
        let rest = edits.drop_last();
        assert forall|j: int| k <= j < rest.len() implies !comes_first(#[trigger] rest[j], e) by {
            assert(!comes_first(edits[j], e));
        }
        lemma_placed_at(rest, e, k);
        assert(rest.insert(k, e).push(edits.last()) =~= edits.insert(k, e));
    }
}

/// A batch that is in order is its own ascending order.
pub proof fn lemma_ordered_in_order(batch: Seq<EditSpec>, len: int)
    requires
        batch_valid(batch, len),
    ensures
        ordered(batch) == batch,
        batch_accepted(batch, len),
    decreases batch.len(),
{
    let n = batch.len() as int;
    if n > 0 {
        let rest = batch.drop_last();
        assert forall|i: int| 0 <= i < rest.len() implies edit_fits(#[trigger] rest[i], len) by {
            assert(edit_fits(batch[i], len));
        }
        assert forall|i: int, j: int| 0 <= i < j < rest.len() implies (#[trigger] rest[i]).end <= (
        #[trigger] rest[j]).start by {
            assert(batch[i].end <= batch[j].start);
        }
        lemma_ordered_in_order(rest, len);
        if n > 1 {
            assert(edit_fits(batch[n - 2], len));
            assert(edit_fits(batch[n - 1], len));
            assert(batch[n - 2].end <= batch[n - 1].start);
            assert(comes_first(rest.last(), batch.last()));
        }
        assert(rest.push(batch.last()) =~= batch);
    }
}

/// The edits ascend: each comes first of every later one.
pub open spec fn ascending(edits: Seq<EditSpec>) -> bool {
    forall|i: int, j: int|
        0 <= i < j < edits.len() ==> comes_first(#[trigger] edits[i], #[trigger] edits[j])
}

/// Two ranges have no character in common, and neither is an insertion
/// inside the other.
pub open spec fn apart(a: EditSpec, b: EditSpec) -> bool {
    a.end <= b.start || b.end <= a.start
}

/// The ranges of the batch are apart from each other.
pub open spec fn no_overlap(batch: Seq<EditSpec>) -> bool {
    forall|i: int, j: int| 0 <= i < j < batch.len() ==> apart(#[trigger] batch[i], #[trigger] batch[j])
}

/// Every range of the batch lies within a text of `len` characters.
pub open spec fn all_fit(batch: Seq<EditSpec>, len: int) -> bool {
    forall|i: int| 0 <= i < batch.len() ==> edit_fits(#[trigger] batch[i], len)
}

/// The place that `placed` gives an edit.
pub proof fn lemma_place_of(edits: Seq<EditSpec>, e: EditSpec) -> (k: int)
    ensures
        0 <= k <= edits.len(),
        placed(edits, e) == edits.insert(k, e),
        k > 0 ==> comes_first(edits[k - 1], e),
        forall|j: int| k <= j < edits.len() ==> !comes_first(#[trigger] edits[j], e),
    decreases edits.len(),
{
    let n = edits.len() as int;
    if n == 0 {
        lemma_placed_at(edits, e, 0);
        0
    } else if comes_first(edits.last(), e) {
        lemma_placed_at(edits, e, n);
        n
    } else {
        let k = lemma_place_of(edits.drop_last(), e);
        assert forall|j: int| k <= j < edits.len() implies !comes_first(#[trigger] edits[j], e) by {
            if j < n - 1 {
                assert(!comes_first(edits.drop_last()[j], e));
            }
        }
        if k > 0 {
            assert(edits.drop_last()[k - 1] == edits[k - 1]);
        }
        lemma_placed_at(edits, e, k);
        k
    }
}

/// The ascending order of a batch ascends and holds the edits of the batch,
/// no others.
pub proof fn lemma_ordered_ascends(batch: Seq<EditSpec>)
    ensures
        ascending(ordered(batch)),
        ordered(batch).len() == batch.len(),
        forall|i: int| 0 <= i < batch.len() ==> ordered(batch).contains(#[trigger] batch[i]),
        forall|i: int| 0 <= i < batch.len() ==> batch.contains(#[trigger] ordered(batch)[i]),
    decreases batch.len(),
{
    let n = batch.len() as int;
    if n > 0 {
        let rest = batch.drop_last();
        let e = batch.last();
        let sorted = ordered(rest);
        lemma_ordered_ascends(rest);
        let k = lemma_place_of(sorted, e);
        let out = sorted.insert(k, e);
        assert forall|i: int, j: int| 0 <= i < j < out.len() implies comes_first(
            #[trigger] out[i],
            #[trigger] out[j],
        ) by {
            if j < k {
                assert(comes_first(sorted[i], sorted[j]));
            } else if j == k {
                if i < k - 1 {
                    assert(comes_first(sorted[i], sorted[k - 1]));
                }
            } else if i < k {
                assert(comes_first(sorted[i], sorted[j - 1]));
            } else if i == k {
                assert(!comes_first(sorted[j - 1], e));
            } else {
                assert(comes_first(sorted[i - 1], sorted[j - 1]));
            }
        }
        assert forall|i: int| 0 <= i < batch.len() implies out.contains(#[trigger] batch[i]) by {
            if i < n - 1 {
                assert(sorted.contains(rest[i]));
                let at = choose|at: int| 0 <= at < sorted.len() && sorted[at] == rest[i];
                if at < k {
                    assert(out[at] == batch[i]);
                } else {
                    assert(out[at + 1] == batch[i]);
                }
            } else {
                assert(out[k] == batch[i]);
            }
        }
        assert forall|i: int| 0 <= i < batch.len() implies batch.contains(#[trigger] out[i]) by {
            if i == k {
                assert(batch[n - 1] == out[i]);
            } else {
                let at = if i < k {
                    i
                } else {
                    i - 1
                };
                assert(out[i] == sorted[at]);
                assert(rest.contains(sorted[at]));
                let from = choose|from: int| 0 <= from < rest.len() && rest[from] == sorted[at];
                assert(batch[from] == out[i]);
            }
        }
    }
}

/// A batch that ascends is its own ascending order.
pub proof fn lemma_ordered_of_ascending(batch: Seq<EditSpec>)
    requires
        ascending(batch),
    ensures
        ordered(batch) == batch,
    decreases batch.len(),
{
    let n = batch.len() as int;
    if n > 0 {
        let rest = batch.drop_last();
        assert forall|i: int, j: int| 0 <= i < j < rest.len() implies comes_first(
            #[trigger] rest[i],
            #[trigger] rest[j],
        ) by {
            assert(comes_first(batch[i], batch[j]));
        }
        lemma_ordered_of_ascending(rest);
        if n > 1 {
            assert(comes_first(batch[n - 2], batch[n - 1]));
            assert(rest.last() == batch[n - 2]);
        }
        assert(rest.push(batch.last()) =~= batch);
    }
}

/// Putting a batch in order twice is putting it in order once.
pub proof fn lemma_ordered_twice(batch: Seq<EditSpec>)
    ensures
        ordered(ordered(batch)) == ordered(batch),
{
    lemma_ordered_ascends(batch);
    lemma_ordered_of_ascending(ordered(batch));
}

/// An edit that lies within the text and is apart from every edit of a
/// batch in order can be put among them where the ascending order has it.
pub proof fn lemma_insert_in_order(sorted: Seq<EditSpec>, e: EditSpec, k: int, len: int)
    requires
        0 <= k <= sorted.len(),
        batch_valid(sorted, len),
        edit_fits(e, len),
        forall|p: int| 0 <= p < sorted.len() ==> apart(#[trigger] sorted[p], e),
        ascending(sorted.insert(k, e)),
    ensures
        batch_valid(sorted.insert(k, e), len),
{
    let out = sorted.insert(k, e);
    assert forall|i: int| 0 <= i < out.len() implies edit_fits(#[trigger] out[i], len) by {
        if i < k {
            assert(out[i] == sorted[i]);
            assert(edit_fits(sorted[i], len));
        } else if i > k {
            assert(out[i] == sorted[i - 1]);
            assert(edit_fits(sorted[i - 1], len));
        }
    }
    assert forall|i: int, j: int| 0 <= i < j < out.len() implies (#[trigger] out[i]).end <= (
    #[trigger] out[j]).start by {
        assert(comes_first(out[i], out[j]));
        assert(edit_fits(out[i], len));
        assert(edit_fits(out[j], len));
        if j < k {
            assert(sorted[i].end <= sorted[j].start);
        } else if j == k {
            assert(apart(sorted[i], e));
        } else if i < k {
            assert(sorted[i].end <= sorted[j - 1].start);
        } else if i == k {
            assert(apart(sorted[j - 1], e));
        } else {
            assert(sorted[i - 1].end <= sorted[j - 1].start);
        }
    }
}

/// Taking an edit out of a batch in order leaves a batch in order, and the
/// edit was apart from every other.
pub proof fn lemma_remove_in_order(sorted: Seq<EditSpec>, e: EditSpec, k: int, len: int)
    requires
        0 <= k <= sorted.len(),
        batch_valid(sorted.insert(k, e), len),
    ensures
        batch_valid(sorted, len),
        edit_fits(e, len),
        forall|p: int| 0 <= p < sorted.len() ==> apart(#[trigger] sorted[p], e),
{
    let out = sorted.insert(k, e);
    assert(edit_fits(out[k], len));
    assert forall|i: int| 0 <= i < sorted.len() implies edit_fits(#[trigger] sorted[i], len) by {
        if i < k {
            assert(edit_fits(out[i], len));
        } else {
            assert(edit_fits(out[i + 1], len));
        }
    }
    assert forall|i: int, j: int| 0 <= i < j < sorted.len() implies (#[trigger] sorted[i]).end <= (
    #[trigger] sorted[j]).start by {
        let a = if i < k {
            i
        } else {
            i + 1
        };
        let b = if j < k {
            j
        } else {
            j + 1
        };
        assert(out[a].end <= out[b].start);
    }
    assert forall|p: int| 0 <= p < sorted.len() implies apart(#[trigger] sorted[p], e) by {
        if p < k {
            assert(out[p].end <= out[k].start);
        } else {
            assert(out[k].end <= out[p + 1].start);
        }
    }
}

/// A batch whose ranges lie within the text and are apart from each other
/// is accepted, in whatever order they are given.
pub proof fn lemma_apart_is_accepted(batch: Seq<EditSpec>, len: int)
    requires
        all_fit(batch, len),
        no_overlap(batch),
    ensures
        batch_accepted(batch, len),
    decreases batch.len(),
{
    let n = batch.len() as int;
    if n > 0 {
        let rest = batch.drop_last();
        let e = batch.last();
        let sorted = ordered(rest);
        assert forall|i: int| 0 <= i < rest.len() implies edit_fits(#[trigger] rest[i], len) by {
            assert(edit_fits(batch[i], len));
        }
        assert forall|i: int, j: int| 0 <= i < j < rest.len() implies apart(
            #[trigger] rest[i],
            #[trigger] rest[j],
        ) by {
            assert(apart(batch[i], batch[j]));
        }
        lemma_apart_is_accepted(rest, len);
        lemma_ordered_ascends(rest);
        lemma_ordered_ascends(batch);
        let k = lemma_place_of(sorted, e);
        assert(edit_fits(batch[n - 1], len));
        assert forall|p: int| 0 <= p < sorted.len() implies apart(#[trigger] sorted[p], e) by {
            assert(rest.contains(sorted[p]));
            let from = choose|from: int| 0 <= from < rest.len() && rest[from] == sorted[p];
            assert(apart(batch[from], batch[n - 1]));
        }
        lemma_insert_in_order(sorted, e, k, len);
    }
}

/// The ranges of an accepted batch lie within the text and are apart from
/// each other.
pub proof fn lemma_accepted_is_apart(batch: Seq<EditSpec>, len: int)
    requires
        batch_accepted(batch, len),
    ensures
        all_fit(batch, len),
        no_overlap(batch),
    decreases batch.len(),
{
    let n = batch.len() as int;
    if n > 0 {
        let rest = batch.drop_last();
        let e = batch.last();
        let sorted = ordered(rest);
        let k = lemma_place_of(sorted, e);
        lemma_remove_in_order(sorted, e, k, len);
        lemma_accepted_is_apart(rest, len);
        lemma_ordered_ascends(rest);
        assert forall|i: int| 0 <= i < batch.len() implies edit_fits(#[trigger] batch[i], len) by {
            if i < n - 1 {
                assert(edit_fits(rest[i], len));
            }
        }
        assert forall|i: int, j: int| 0 <= i < j < batch.len() implies apart(
            #[trigger] batch[i],
            #[trigger] batch[j],
        ) by {
            if j < n - 1 {
                assert(apart(rest[i], rest[j]));
            } else {
                assert(sorted.contains(rest[i]));
                let at = choose|at: int| 0 <= at < sorted.len() && sorted[at] == rest[i];
                assert(apart(sorted[at], e));
            }
        }
    }
}

/// Which batches are accepted: exactly those whose ranges lie within the
/// text and are apart from each other, in whatever order they are given.
pub proof fn lemma_accepted_means_apart(batch: Seq<EditSpec>, len: int)
    ensures
        batch_accepted(batch, len) <==> all_fit(batch, len) && no_overlap(batch),
{
    if batch_accepted(batch, len) {
        lemma_accepted_is_apart(batch, len);
    }
    if all_fit(batch, len) && no_overlap(batch) {
        lemma_apart_is_accepted(batch, len);
    }
}

/// The edits in ascending order of their ranges.
pub fn sort_edits(edits: Vec<Edit>) -> (out: Vec<Edit>)
    ensures
        batch_view(out@) == ordered(batch_view(edits@)),
{
    let ghost batch = batch_view(edits@);
    let mut rest = edits;
    let mut out: Vec<Edit> = Vec::new();
    let ghost mut done: int = 0;
    proof {
        assert(batch.take(0) =~= Seq::empty());
        assert(batch_view(out@) =~= Seq::empty());
        assert(batch.skip(0) =~= batch);
    }
    while rest.len() > 0
        invariant
            0 <= done <= batch.len(),
            rest@.len() + done == batch.len(),
            batch_view(rest@) == batch.skip(done),
            batch_view(out@) == ordered(batch.take(done)),
        decreases rest.len(),
    {
        let ghost waiting = rest@;
        let e = rest.remove(0);
        let ghost sorted = batch_view(out@);
        proof {
            assert(batch_view(waiting)[0] == waiting[0]@);
            assert(batch.skip(done)[0] == batch[done]);
        }
        let mut k: usize = out.len();
        while k > 0 && !(out[k - 1].start < e.start || (out[k - 1].start == e.start && out[k
            - 1].end <= e.end))
            invariant
                k <= out.len(),
                sorted == batch_view(out@),
                forall|j: int| k <= j < sorted.len() ==> !comes_first(#[trigger] sorted[j], e@),
            decreases k,
        {
            k -= 1;
        }
        proof {
            assert(batch[done] == e@);
            if k > 0 {
                assert(sorted[k - 1] == out@[k - 1]@);
            }
            lemma_placed_at(sorted, e@, k as int);
            assert(batch.take(done + 1).drop_last() == batch.take(done));
            assert(batch.take(done + 1).last() == e@);
        }
        out.insert(k, e);
        proof {
            assert(batch_view(out@) =~= sorted.insert(k as int, e@));
            assert forall|i: int| 0 <= i < rest@.len() implies batch_view(rest@)[i] == batch.skip(
                done + 1,
            )[i] by {
                assert(rest@[i] == waiting[i + 1]);
                assert(batch_view(waiting)[i + 1] == waiting[i + 1]@);
                assert(batch.skip(done)[i + 1] == batch[done + i + 1]);
            }
            assert(batch_view(rest@) =~= batch.skip(done + 1));
            done = done + 1;
        }
    }
    proof {
        assert(batch.take(done) == batch);
    }
    out
}

/// Every text that arises while the ranges of the batch are replaced, last
/// range first, has a length that the machine can hold.
pub open spec fn batch_bounded(c: Seq<char>, batch: Seq<EditSpec>) -> bool
    decreases batch.len(),
{
    batch.len() == 0 || (apply_one(c, batch.last()).len() <= usize::MAX && batch_bounded(
        apply_one(c, batch.last()),
        batch.drop_last(),
    ))
}

/// Where an offset lands after one replacement.
fn shift_past(o: usize, e: &Edit, bias: Bias, Ghost(c): Ghost<Seq<char>>) -> (r: usize)
    requires
        edit_fits(e@, c.len() as int),
        o <= c.len(),
        apply_one(c, e@).len() <= usize::MAX,
    ensures
        r == shift_one(o as int, e@, bias),
        r <= apply_one(c, e@).len(),
{
    proof {
        lemma_shift_one_in_bounds(c, e@, o as int, bias);
    }
    if o < e.start {
        o
    } else if o > e.end {
        o - (e.end - e.start) + e.text.len()
    } else {
        match bias {
            Bias::Before => e.start,
            Bias::After => e.start + e.text.len(),
        }
    }
}

/// Where an offset lands after a whole batch.
fn shift_through(o: usize, edits: &Vec<Edit>, bias: Bias, Ghost(c): Ghost<Seq<char>>) -> (r: usize)
    requires
        batch_valid(batch_view(edits@), c.len() as int),
        batch_bounded(c, batch_view(edits@)),
        o <= c.len(),
    ensures
        r == shift_batch(o as int, batch_view(edits@), bias),
        r <= apply_batch(c, batch_view(edits@)).len(),
{
    let ghost batch = batch_view(edits@);
    let ghost mut cur = c;
    let mut at: usize = o;
    let mut k: usize = edits.len();
    proof {
        assert(batch.take(k as int) == batch);
    }
    while k > 0
        invariant
            k <= edits.len(),
            batch == batch_view(edits@),
            batch_valid(batch.take(k as int), cur.len() as int),
            batch_bounded(cur, batch.take(k as int)),
            at <= cur.len(),
            shift_batch(at as int, batch.take(k as int), bias) == shift_batch(o as int, batch, bias),
            apply_batch(cur, batch.take(k as int)) == apply_batch(c, batch),
        decreases k,
    {
        let ghost part = batch.take(k as int);
        proof {
            lemma_batch_valid_prefix(cur, part);
            assert(part.last() == edits@[k - 1]@);
            assert(part.drop_last() == batch.take(k - 1));
        }
        k -= 1;
        at = shift_past(at, &edits[k], bias, Ghost(cur));
        proof {
            cur = apply_one(cur, edits@[k as int]@);
        }
    }
    at
}

impl Buffer {
    /// The recorded length of revision `r` is that of its text.
    spec fn length_kept(&self, r: int) -> bool {
        self.lengths@[r] == self@.content_at(r).len()
    }

    /// Replacing the ranges of the batch that made revision `r + 1` never
    /// made a text too long for the machine.
    spec fn bounded_at(&self, r: int) -> bool {
        batch_bounded(self@.content_at(r), self@.log[r])
    }

    /// The representation agrees with the view, and the log is well formed.
    pub closed spec fn wf(&self) -> bool {
        &&& self@.wf()
        &&& self.content@ == self@.content()
        &&& self.lengths@.len() == self.history@.len() + 1
        &&& forall|r: int| 0 <= r <= self.history@.len() ==> #[trigger] self.length_kept(r)
        &&& forall|r: int| 0 <= r < self.history@.len() ==> #[trigger] self.bounded_at(r)
    }

    /// What a well-formed buffer tells of its view.
    pub proof fn lemma_wf(&self)
        requires
            self.wf(),
        ensures
            self@.wf(),
            self@.content().len() <= usize::MAX,
            self@.revision() <= usize::MAX,
    {
        assert(self@.log.take(self@.revision()) == self@.log);
        assert(self.length_kept(self.history@.len() as int));
        assert(self.history.len() <= usize::MAX);
    }

    /// A buffer at revision 0 holding the given characters.
    pub fn from_chars(id: u64, content: Vec<char>) -> (b: Buffer)
        ensures
            b.wf(),
            b@ == (BufferView { id, initial: content@, log: Seq::empty(), diff_base: None }),
    {
        let mut lengths: Vec<usize> = Vec::new();
        lengths.push(content.len());
        let ghost initial = content@;
        let b = Buffer {
            id,
            content,
            history: Vec::new(),
            lengths,
            initial: Ghost(initial),
            diff_base: None,
        };
        proof {
            assert(b@.log =~= Seq::empty());
            assert forall|r: int| 0 <= r <= b.history@.len() implies #[trigger] b.length_kept(
                r,
            ) by {
                assert(b@.log.take(r) =~= Seq::empty());
            }
        }
        b
    }

    /// A buffer at revision 0 holding the given text.
    pub fn new(id: u64, text: &str) -> (b: Buffer)
        ensures
            b.wf(),
            b@ == (BufferView { id, initial: text@, log: Seq::empty(), diff_base: None }),
    {
        Buffer::from_chars(id, chars_of(text))
    }

    /// Sets or clears the text that the buffer is compared with. The text
    /// of the buffer, its log and its anchors stay as they are.
    pub fn set_diff_base(&mut self, diff_base: Option<String>)
        requires
            old(self).wf(),
        ensures
            final(self).wf(),
            final(self)@ == (BufferView { diff_base: text_view(diff_base), ..old(self)@ }),
    {
        let ghost before = *self;
        self.diff_base = diff_base;
        proof {
            assert forall|r: int| 0 <= r <= self.history@.len() implies #[trigger] self.length_kept(
                r,
            ) by {
                assert(before.length_kept(r));
            }
            assert forall|r: int| 0 <= r < self.history@.len() implies #[trigger] self.bounded_at(
                r,
            ) by {
                assert(before.bounded_at(r));
            }
        }
    }

    /// The text that the buffer is compared with, where it has one.
    pub fn diff_base(&self) -> (base: &Option<String>)
        ensures
            text_view(*base) == self@.diff_base,
    {
        &self.diff_base
    }

    /// The buffer's identity.
    pub fn id(&self) -> (id: u64)
        ensures
            id == self@.id,
    {
        self.id
    }

    /// The number of batches applied so far.
    pub fn revision(&self) -> (rev: u64)
        ensures
            rev == self@.revision(),
    {
        self.history.len() as u64
    }

    /// The number of characters of the present text.
    pub fn len(&self) -> (n: usize)
        requires
            self.wf(),
        ensures
            n == self@.content().len(),
    {
        self.content.len()
    }

    /// The characters of the present text.
    pub fn chars(&self) -> (c: &Vec<char>)
        requires
            self.wf(),
        ensures
            c@ == self@.content(),
    {
        &self.content
    }

    /// The present text as a string.
    pub fn text(&self) -> (s: String)
        requires
            self.wf(),
        ensures
            s@ == self@.content(),
    {
        string_of(&self.content)
    }

    /// Applies a batch of replacements atomically and returns the new
    /// revision. All ranges refer to the present text and may be given in
    /// any order. A batch with a range that is reversed or reaches behind the
    /// text, or with ranges that overlap, is rejected with `InvalidRange`,
    /// and the buffer stays as it was.
    pub fn edit(&mut self, edits: Vec<Edit>) -> (r: Result<u64, Error>)
        requires
            old(self).wf(),
        ensures
            final(self).wf(),
            match r {
                Ok(rev) => {
                    &&& batch_accepted(batch_view(edits@), old(self)@.content().len() as int)
                    &&& all_fit(batch_view(edits@), old(self)@.content().len() as int)
                    &&& no_overlap(batch_view(edits@))
                    &&& final(self)@ == old(self)@.edited(ordered(batch_view(edits@)))
                    &&& final(self)@.content() == apply_batch(
                        old(self)@.content(),
                        ordered(batch_view(edits@)),
                    )
                    &&& rev == old(self)@.revision() + 1
                },
                Err(e) => {
                    &&& e == Error::InvalidRange
                    &&& !batch_accepted(batch_view(edits@), old(self)@.content().len() as int)
                    &&& !(all_fit(batch_view(edits@), old(self)@.content().len() as int)
                        && no_overlap(batch_view(edits@)))
                    &&& *final(self) == *old(self)
                },
            },
    {
        proof {
            lemma_accepted_means_apart(batch_view(edits@), self@.content().len() as int);
        }
        let edits = sort_edits(edits);
        if !check_batch(&edits, self.content.len()) {
            return Err(Error::InvalidRange);
        }
        let ghost batch = batch_view(edits@);
        let ghost before = self@;
        let ghost start = self.content@;
        proof {
            self.lemma_wf();
            lemma_edited(before, batch);
            assert(batch.take(edits.len() as int) == batch);
        }
        let mut cur: Vec<char> = Vec::new();
        core::mem::swap(&mut self.content, &mut cur);
        let mut k: usize = edits.len();
        while k > 0
            invariant
                k <= edits.len(),
                batch == batch_view(edits@),
                batch_valid(batch.take(k as int), cur.len() as int),
                batch_bounded(cur@, batch.take(k as int)) ==> batch_bounded(start, batch),
                apply_batch(cur@, batch.take(k as int)) == apply_batch(start, batch),
            decreases k,
        {
            let ghost part = batch.take(k as int);
            proof {
                lemma_batch_valid_prefix(cur@, part);
                assert(part.last() == edits@[k - 1]@);
                assert(part.drop_last() == batch.take(k - 1));
            }
            let ghost prev = cur@;
            k -= 1;
            cur = splice(&cur, &edits[k]);
            proof {
                assert(cur@ == apply_one(prev, part.last()));
                assert(cur.len() <= usize::MAX);
                assert(part.drop_last() == batch.take(k as int));
                assert(batch_bounded(cur@, batch.take(k as int)) ==> batch_bounded(prev, part));
            }
        }
        proof {
            assert(batch_bounded(cur@, batch.take(0)));
        }
        self.lengths.push(cur.len());
        self.content = cur;
        self.history.push(edits);
        proof {
            assert(self@.log =~= before.log.push(batch));
            assert(self@ == before.edited(batch));
            assert(before.log.take(before.revision()) == before.log);
            assert(self@.log.take(self@.revision()) == self@.log);
            assert forall|r: int| 0 <= r < self.history@.len() implies #[trigger] self.bounded_at(
                r,
            ) by {
                assert(self@.content_at(r) == before.content_at(r));
                if r < before.revision() {
                    assert(self@.log[r] == before.log[r]);
                    assert(old(self).bounded_at(r));
                } else {
                    assert(self@.log[r] == batch);
                    assert(before.content_at(r) == start);
                }
            }
            assert forall|r: int| 0 <= r <= self.history@.len() implies #[trigger] self.length_kept(
                r,
            ) by {
                if r <= before.revision() {
                    assert(self@.content_at(r) == before.content_at(r));
                    assert(old(self).length_kept(r));
                }
            }
        }
        Ok(self.history.len() as u64)
    }
}


impl Buffer {
    /// An anchor at the present revision with the given bias. An offset
    /// behind the end of the text is taken as the end.
    pub fn anchor_at(&self, offset: usize, bias: Bias) -> (a: Anchor)
        requires
            self.wf(),
        ensures
            a.buffer_id == self@.id,
            a.revision == self@.revision(),
            a.offset == if offset <= self@.content().len() {
                offset as int
            } else {
                self@.content().len() as int
            },
            a.bias == bias,
            self@.owns(a),
            self@.resolve(a, self@.revision()) == a.offset,
    {
        proof {
            self.lemma_wf();
            assert(self@.log.take(self@.revision()) == self@.log);
            assert(self@.log.subrange(self@.revision(), self@.revision()) =~= Seq::empty());
        }
        let at = if offset <= self.content.len() {
            offset
        } else {
            self.content.len()
        };
        Anchor { buffer_id: self.id, revision: self.history.len() as u64, offset: at, bias }
    }

    /// An anchor that stays in front of text inserted at its offset.
    pub fn anchor_before(&self, offset: usize) -> (a: Anchor)
        requires
            self.wf(),
        ensures
            a.buffer_id == self@.id,
            a.revision == self@.revision(),
            a.offset == if offset <= self@.content().len() {
                offset as int
            } else {
                self@.content().len() as int
            },
            a.bias == Bias::Before,
            self@.owns(a),
            self@.resolve(a, self@.revision()) == a.offset,
    {
        self.anchor_at(offset, Bias::Before)
    }

    /// An anchor that moves behind text inserted at its offset.
    pub fn anchor_after(&self, offset: usize) -> (a: Anchor)
        requires
            self.wf(),
        ensures
            a.buffer_id == self@.id,
            a.revision == self@.revision(),
            a.offset == if offset <= self@.content().len() {
                offset as int
            } else {
                self@.content().len() as int
            },
            a.bias == Bias::After,
            self@.owns(a),
            self@.resolve(a, self@.revision()) == a.offset,
    {
        self.anchor_at(offset, Bias::After)
    }

    /// Whether the anchor can be resolved against `target_revision`: it was
    /// made by this buffer, within the text of its revision, and the target
    /// lies between that revision and the present one.
    pub fn can_resolve(&self, anchor: &Anchor, target_revision: u64) -> (ok: bool)
        requires
            self.wf(),
        ensures
            ok == self@.resolvable(*anchor, target_revision as int),
    {
        proof {
            self.lemma_wf();
        }
        if anchor.buffer_id != self.id {
            return false;
        }
        let present: u64 = self.history.len() as u64;
        if anchor.revision > target_revision || target_revision > present {
            return false;
        }
        let made: usize = anchor.revision as usize;
        assert(self.length_kept(made as int));
        anchor.offset <= self.lengths[made]
    }

    /// The offset of the anchor at `target_revision`, found by replaying the
    /// logged batches between the anchor's revision and the target.
    pub fn resolve_anchor(&self, anchor: &Anchor, target_revision: u64) -> (offset: usize)
        requires
            self.wf(),
            self@.resolvable(*anchor, target_revision as int),
        ensures
            offset == self@.resolve(*anchor, target_revision as int),
            offset <= self@.content_at(target_revision as int).len(),
    {
        let ghost v = self@;
        let ghost from = anchor.revision as int;
        proof {
            self.lemma_wf();
            assert(v.log.subrange(from, from) =~= Seq::empty());
        }
        let mut at: usize = anchor.offset;
        let mut r: usize = anchor.revision as usize;
        let target: usize = target_revision as usize;
        while r < target
            invariant
                self.wf(),
                v == self@,
                v.wf(),
                from <= r <= target <= v.revision(),
                target == target_revision,
                from == anchor.revision,
                0 <= anchor.offset <= v.content_at(from).len(),
                at == track(anchor.offset as int, v.log.subrange(from, r as int), anchor.bias),
                at <= v.content_at(r as int).len(),
            decreases target - r,
        {
            proof {
                assert(batch_valid_at(v.initial, v.log, r as int));
                assert(self.bounded_at(r as int));
                let seg = v.log.subrange(from, r + 1);
                assert(seg.drop_last() == v.log.subrange(from, r as int));
                assert(seg.last() == v.log[r as int]);
                assert(v.log[r as int] == batch_view(self.history@[r as int]@));
                lemma_track_in_bounds(v, from, r + 1, anchor.offset as int, anchor.bias);
            }
            at = shift_through(at, &self.history[r], anchor.bias, Ghost(v.content_at(r as int)));
            r += 1;
        }
        at
    }

    /// The offset of the anchor in the present text.
    pub fn offset_of(&self, anchor: &Anchor) -> (offset: usize)
        requires
            self.wf(),
            self@.owns(*anchor),
        ensures
            offset == self@.resolve(*anchor, self@.revision()),
            offset <= self@.content().len(),
    {
        proof {
            self.lemma_wf();
            assert(self@.log.take(self@.revision()) == self@.log);
        }
        self.resolve_anchor(anchor, self.history.len() as u64)
    }

    /// Whether the anchor was made by this buffer.
    pub fn owns_anchor(&self, anchor: &Anchor) -> (ok: bool)
        requires
            self.wf(),
        ensures
            ok == self@.owns(*anchor),
    {
        proof {
            self.lemma_wf();
        }
        if anchor.revision > self.history.len() as u64 {
            return false;
        }
        self.can_resolve(anchor, anchor.revision)
    }

    /// A copy of the present text, tagged with the present revision. Later
    /// edits of the buffer do not reach it.
    pub fn snapshot(&self) -> (snap: BufferSnapshot)
        requires
            self.wf(),
        ensures
            snap.buffer_id == self@.id,
            snap.revision == self@.revision(),
            snap.content@ == self@.content(),
    {
        BufferSnapshot {
            buffer_id: self.id,
            revision: self.history.len() as u64,
            content: self.content.clone(),
        }
    }

    /// The batch that led from `revision` to the next one, if the buffer has
    /// gone beyond `revision`.
    pub fn batch_after(&self, revision: u64) -> (batch: Option<&Vec<Edit>>)
        ensures
            batch is Some <==> revision < self@.revision(),
            batch is Some ==> batch_view(batch->0@) == self@.log[revision as int],
    {
        if revision < self.history.len() as u64 {
            Some(&self.history[revision as usize])
        } else {
            None
        }
    }
}

/// Tracking through one log and then another is tracking through both.
pub proof fn lemma_track_concat(
    o: int,
    first: Seq<Seq<EditSpec>>,
    second: Seq<Seq<EditSpec>>,
    bias: Bias,
)
    ensures
        track(o, first + second, bias) == track(track(o, first, bias), second, bias),
    decreases second.len(),
{
    if second.len() == 0 {
        assert(first + second == first);
    } else {
        assert((first + second).drop_last() == first + second.drop_last());
        assert((first + second).last() == second.last());
        lemma_track_concat(o, first, second.drop_last(), bias);
    }
}

impl BufferView {
    /// The buffer after the batches of `more`, applied in order.
    pub open spec fn edited_all(self, more: Seq<Seq<EditSpec>>) -> BufferView {
        BufferView { log: self.log + more, ..self }
    }
}

/// Anchors survive edits. Take a well-formed buffer, an anchor that it owns,
/// and any sequence of further batches, each in order for the text it
/// meets. Then the anchor can still be resolved, and it resolves to the
/// offset it had before, tracked through each batch in turn by the rules of
/// `shift_one`: in front of a replaced range it stays, behind it it moves
/// with the text, and where the range touches it, it lands on the side of
/// the new text that its bias names. The result lies within the new text.
pub proof fn lemma_anchor_tracks_edits(v: BufferView, more: Seq<Seq<EditSpec>>, a: Anchor)
    requires
        v.wf(),
        v.owns(a),
        v.edited_all(more).wf(),
    ensures
        v.edited_all(more).resolvable(a, v.edited_all(more).revision()),
        v.edited_all(more).resolve(a, v.edited_all(more).revision()) == track(
            v.resolve(a, v.revision()),
            more,
            a.bias,
        ),
        0 <= v.edited_all(more).resolve(a, v.edited_all(more).revision()) <= v.edited_all(
            more,
        ).content().len(),
{
    let w = v.edited_all(more);
    let from = a.revision as int;
    assert(w.log.take(from) == v.log.take(from));
    assert(w.log.subrange(from, w.revision()) == v.log.subrange(from, v.revision()) + more);
    lemma_track_concat(a.offset as int, v.log.subrange(from, v.revision()), more, a.bias);
    lemma_track_in_bounds(w, from, w.revision(), a.offset as int, a.bias);
    assert(w.log.take(w.revision()) == w.log);
}

/// An anchor whose bias is `After` keeps the character behind it: where that
/// character is not replaced, it stands behind the shifted offset too.
pub proof fn lemma_after_keeps_follower(c: Seq<char>, e: EditSpec, o: int)
    requires
        edit_fits(e, c.len() as int),
        0 <= o < c.len(),
        o < e.start || e.end <= o,
    ensures
        0 <= shift_one(o, e, Bias::After) < apply_one(c, e).len(),
        apply_one(c, e)[shift_one(o, e, Bias::After)] == c[o],
{
}

/// An anchor whose bias is `Before` keeps the character in front of it: where
/// that character is not replaced, it stands in front of the shifted offset
/// too.
pub proof fn lemma_before_keeps_leader(c: Seq<char>, e: EditSpec, o: int)
    requires
        edit_fits(e, c.len() as int),
        0 < o <= c.len(),
        o <= e.start || e.end < o,
    ensures
        0 < shift_one(o, e, Bias::Before) <= apply_one(c, e).len(),
        apply_one(c, e)[shift_one(o, e, Bias::Before) - 1] == c[o - 1],
{
}

/// Two biases keep two offsets in order: they are equal, or the first
/// offset stays in front of inserted text, or the second moves behind it.
pub open spec fn biases_ordered(first: Bias, second: Bias) -> bool {
    first == second || first == Bias::Before || second == Bias::After
}

/// One replacement keeps two offsets in order, where their biases do.
pub proof fn lemma_shift_one_monotonic(e: EditSpec, o1: int, b1: Bias, o2: int, b2: Bias)
    requires
        e.start <= e.end,
        o1 <= o2,
        biases_ordered(b1, b2),
    ensures
        shift_one(o1, e, b1) <= shift_one(o2, e, b2),
{
}

/// A batch keeps two offsets in order, where their biases do.
pub proof fn lemma_shift_batch_monotonic(
    batch: Seq<EditSpec>,
    o1: int,
    b1: Bias,
    o2: int,
    b2: Bias,
)
    requires
        forall|i: int| 0 <= i < batch.len() ==> (#[trigger] batch[i]).start <= batch[i].end,
        o1 <= o2,
        biases_ordered(b1, b2),
    ensures
        shift_batch(o1, batch, b1) <= shift_batch(o2, batch, b2),
    decreases batch.len(),
{
    if batch.len() > 0 {
        let last = batch.last();
        assert(batch[batch.len() - 1].start <= batch[batch.len() - 1].end);
        lemma_shift_one_monotonic(last, o1, b1, o2, b2);
        let rest = batch.drop_last();
        assert forall|i: int| 0 <= i < rest.len() implies (#[trigger] rest[i]).start
            <= rest[i].end by {
            assert(batch[i].start <= batch[i].end);
        }
        lemma_shift_batch_monotonic(rest, shift_one(o1, last, b1), b1, shift_one(o2, last, b2), b2);
    }
}

/// Two anchors of one revision stay in order at every later revision, where
/// their biases keep them in order.
pub proof fn lemma_resolve_monotonic(v: BufferView, a1: Anchor, a2: Anchor, target: int)
    requires
        v.wf(),
        v.resolvable(a1, target),
        v.resolvable(a2, target),
        a1.revision == a2.revision,
        a1.offset <= a2.offset,
        biases_ordered(a1.bias, a2.bias),
    ensures
        v.resolve(a1, target) <= v.resolve(a2, target),
    decreases target - a1.revision,
{
    let from = a1.revision as int;
    let seg = v.log.subrange(from, target);
    if from < target {
        assert(seg.drop_last() == v.log.subrange(from, target - 1));
        assert(seg.last() == v.log[target - 1]);
        lemma_resolve_monotonic(v, a1, a2, target - 1);
        assert(batch_valid_at(v.initial, v.log, target - 1));
        let batch = v.log[target - 1];
        assert forall|i: int| 0 <= i < batch.len() implies (#[trigger] batch[i]).start
            <= batch[i].end by {
            assert(edit_fits(batch[i], replay(v.initial, v.log.take(target - 1)).len() as int));
        }
        lemma_shift_batch_monotonic(
            batch,
            v.resolve(a1, target - 1),
            a1.bias,
            v.resolve(a2, target - 1),
            a2.bias,
        );
    }
}

/// A buffer keeps its anchors: what it owns it still owns after one more
/// batch, and what could be resolved at a revision resolves there as before.
pub proof fn lemma_owns_after_edit(v: BufferView, batch: Seq<EditSpec>, a: Anchor)
    requires
        v.wf(),
        batch_valid(batch, v.content().len() as int),
        v.owns(a),
    ensures
        v.edited(batch).owns(a),
        forall|target: int|
            a.revision <= target <= v.revision() ==> v.edited(batch).resolve(a, target)
                == v.resolve(a, target),
{
    lemma_edited(v, batch);
    let w = v.edited(batch);
    assert forall|target: int| a.revision <= target <= v.revision() implies w.resolve(a, target)
        == v.resolve(a, target) by {
        assert(w.log.subrange(a.revision as int, target) == v.log.subrange(
            a.revision as int,
            target,
        ));
    }
}


/// No range of the batch holds the character at `o`.
pub open spec fn spared(batch: Seq<EditSpec>, o: int) -> bool {
    forall|i: int| 0 <= i < batch.len() ==> o < (#[trigger] batch[i]).start || batch[i].end <= o
}

/// Through a whole batch, an anchor whose bias is `After` keeps the
/// character behind it, where no range of the batch holds that character.
pub proof fn lemma_after_keeps_follower_batch(c: Seq<char>, batch: Seq<EditSpec>, o: int)
    requires
        batch_valid(batch, c.len() as int),
        0 <= o < c.len(),
        spared(batch, o),
    ensures
        0 <= shift_batch(o, batch, Bias::After) < apply_batch(c, batch).len(),
        apply_batch(c, batch)[shift_batch(o, batch, Bias::After)] == c[o],
    decreases batch.len(),
{
    if batch.len() > 0 {
        let last = batch.last();
        let rest = batch.drop_last();
        lemma_batch_valid_prefix(c, batch);
        assert(o < batch[batch.len() - 1].start || batch[batch.len() - 1].end <= o);
        lemma_after_keeps_follower(c, last, o);
        let moved = shift_one(o, last, Bias::After);
        assert forall|i: int| 0 <= i < rest.len() implies moved < (#[trigger] rest[i]).start
            || rest[i].end <= moved by {
            assert(o < batch[i].start || batch[i].end <= o);
            assert(batch[i].end <= batch[batch.len() - 1].start);
        }
        lemma_after_keeps_follower_batch(apply_one(c, last), rest, moved);
    }
}

/// Through a whole batch, an anchor whose bias is `Before` keeps the
/// character in front of it, where no range of the batch holds that
/// character.
pub proof fn lemma_before_keeps_leader_batch(c: Seq<char>, batch: Seq<EditSpec>, o: int)
    requires
        batch_valid(batch, c.len() as int),
        0 < o <= c.len(),
        spared(batch, o - 1),
    ensures
        0 < shift_batch(o, batch, Bias::Before) <= apply_batch(c, batch).len(),
        apply_batch(c, batch)[shift_batch(o, batch, Bias::Before) - 1] == c[o - 1],
    decreases batch.len(),
{
    if batch.len() > 0 {
        let last = batch.last();
        let rest = batch.drop_last();
        lemma_batch_valid_prefix(c, batch);
        assert(o - 1 < batch[batch.len() - 1].start || batch[batch.len() - 1].end <= o - 1);
        lemma_before_keeps_leader(c, last, o);
        let moved = shift_one(o, last, Bias::Before);
        assert forall|i: int| 0 <= i < rest.len() implies moved - 1 < (#[trigger] rest[i]).start
            || rest[i].end <= moved - 1 by {
            assert(o - 1 < batch[i].start || batch[i].end <= o - 1);
            assert(batch[i].end <= batch[batch.len() - 1].start);
        }
        lemma_before_keeps_leader_batch(apply_one(c, last), rest, moved);
    }
}


/// No batch of the log replaces the character that stands behind the
/// tracked offset when the batch is applied.
pub open spec fn follower_spared(log: Seq<Seq<EditSpec>>, o: int) -> bool
    decreases log.len(),
{
    log.len() == 0 || (follower_spared(log.drop_last(), o) && spared(
        log.last(),
        track(o, log.drop_last(), Bias::After),
    ))
}

/// No batch of the log replaces the character that stands in front of the
/// tracked offset when the batch is applied.
pub open spec fn leader_spared(log: Seq<Seq<EditSpec>>, o: int) -> bool
    decreases log.len(),
{
    log.len() == 0 || (leader_spared(log.drop_last(), o) && spared(
        log.last(),
        track(o, log.drop_last(), Bias::Before) - 1,
    ))
}

/// Through every revision, an anchor whose bias is `After` stays in front
/// of the character it was made in front of, for as long as no edit
/// replaces that character.
pub proof fn lemma_anchor_keeps_follower(v: BufferView, from: int, to: int, o: int)
    requires
        v.wf(),
        0 <= from <= to <= v.revision(),
        0 <= o < v.content_at(from).len(),
        follower_spared(v.log.subrange(from, to), o),
    ensures
        0 <= track(o, v.log.subrange(from, to), Bias::After) < v.content_at(to).len(),
        v.content_at(to)[track(o, v.log.subrange(from, to), Bias::After)] == v.content_at(from)[o],
    decreases to - from,
{
    let seg = v.log.subrange(from, to);
    if from < to {
        assert(seg.drop_last() == v.log.subrange(from, to - 1));
        assert(seg.last() == v.log[to - 1]);
        lemma_anchor_keeps_follower(v, from, to - 1, o);
        assert(v.log.take(to).drop_last() == v.log.take(to - 1));
        assert(v.log.take(to).last() == v.log[to - 1]);
        assert(batch_valid_at(v.initial, v.log, to - 1));
        lemma_after_keeps_follower_batch(
            v.content_at(to - 1),
            v.log[to - 1],
            track(o, seg.drop_last(), Bias::After),
        );
    } else {
        assert(seg =~= Seq::empty());
    }
}

/// Through every revision, an anchor whose bias is `Before` stays behind
/// the character it was made behind, for as long as no edit replaces that
/// character.
pub proof fn lemma_anchor_keeps_leader(v: BufferView, from: int, to: int, o: int)
    requires
        v.wf(),
        0 <= from <= to <= v.revision(),
        0 < o <= v.content_at(from).len(),
        leader_spared(v.log.subrange(from, to), o),
    ensures
        0 < track(o, v.log.subrange(from, to), Bias::Before) <= v.content_at(to).len(),
        v.content_at(to)[track(o, v.log.subrange(from, to), Bias::Before) - 1] == v.content_at(
            from,
        )[o - 1],
    decreases to - from,
{
    let seg = v.log.subrange(from, to);
    if from < to {
        assert(seg.drop_last() == v.log.subrange(from, to - 1));
        assert(seg.last() == v.log[to - 1]);
        lemma_anchor_keeps_leader(v, from, to - 1, o);
        assert(v.log.take(to).drop_last() == v.log.take(to - 1));
        assert(v.log.take(to).last() == v.log[to - 1]);
        assert(batch_valid_at(v.initial, v.log, to - 1));
        lemma_before_keeps_leader_batch(
            v.content_at(to - 1),
            v.log[to - 1],
            track(o, seg.drop_last(), Bias::Before),
        );
    } else {
        assert(seg =~= Seq::empty());
    }
}

} // verus!
