use vstd::prelude::*;
use crate::error::Error;

verus! {

/// A collapsed range of the text, drawn as a single display column.
#[derive(Clone, Copy, PartialEq, Eq, Structural, Debug)]
pub struct Fold {
    pub start: usize,
    pub end: usize,
}

/// A position on the display.
#[derive(Clone, Copy, PartialEq, Eq, Structural, Debug)]
pub struct DisplayPoint {
    pub row: usize,
    pub column: usize,
}

/// A display position in specifications.
pub ghost struct Cell {
    pub row: int,
    pub col: int,
}

/// `a` comes strictly before `b` in reading order.
pub open spec fn cell_lt(a: Cell, b: Cell) -> bool {
    a.row < b.row || (a.row == b.row && a.col < b.col)
}

/// `a` does not come after `b` in reading order.
pub open spec fn cell_le(a: Cell, b: Cell) -> bool {
    a.row < b.row || (a.row == b.row && a.col <= b.col)
}

/// The character continues the cluster of the character in front of it: a
/// combining mark, a variation selector or a zero-width joiner. Neither a
/// row break nor a fold boundary may stand in front of such a character.
pub open spec fn extends_cluster(c: char) -> bool {
    let n = c as u32;
    ||| 0x0300 <= n <= 0x036F
    ||| 0x1AB0 <= n <= 0x1AFF
    ||| 0x1DC0 <= n <= 0x1DFF
    ||| 0x20D0 <= n <= 0x20FF
    ||| 0xFE00 <= n <= 0xFE0F
    ||| 0xFE20 <= n <= 0xFE2F
    ||| n == 0x200D
}

/// The offset does not split a cluster of the text.
pub open spec fn cluster_boundary(text: Seq<char>, p: int) -> bool {
    p <= 0 || p >= text.len() || !extends_cluster(text[p])
}

/// The folds are non-empty ranges of the text, in ascending order without
/// overlap, and none of their ends splits a cluster.
pub open spec fn folds_wf(text: Seq<char>, folds: Seq<Fold>) -> bool {
    &&& forall|i: int|
        0 <= i < folds.len() ==> (#[trigger] folds[i]).start < folds[i].end <= text.len()
    &&& forall|i: int, j: int|
        0 <= i < j < folds.len() ==> (#[trigger] folds[i]).end <= (#[trigger] folds[j]).start
    &&& forall|i: int|
        0 <= i < folds.len() ==> cluster_boundary(text, (#[trigger] folds[i]).start as int)
            && cluster_boundary(text, folds[i].end as int)
}

/// Some fold starts at `p`.
pub open spec fn fold_starts(folds: Seq<Fold>, p: int) -> bool {
    exists|i: int| 0 <= i < folds.len() && (#[trigger] folds[i]).start == p
}

/// A fold that starts at `p`, where there is one.
pub open spec fn fold_from(folds: Seq<Fold>, p: int) -> Fold {
    folds[choose|i: int| 0 <= i < folds.len() && (#[trigger] folds[i]).start == p]
}

/// The offset lies strictly inside some fold.
pub open spec fn inside_fold(folds: Seq<Fold>, o: int) -> bool {
    exists|i: int| 0 <= i < folds.len() && (#[trigger] folds[i]).start < o < folds[i].end
}

/// The offset that stands for `o` on the display: the start of the fold
/// that hides `o`, or `o` itself where no fold hides it.
pub open spec fn visible_offset(folds: Seq<Fold>, o: int) -> int {
    if inside_fold(folds, o) {
        folds[choose|i: int| 0 <= i < folds.len() && (#[trigger] folds[i]).start < o < folds[i].end].start as int
    } else {
        o
    }
}

/// What the display mapping depends on: the text, the folds and the wrap
/// width.
pub ghost struct DisplayView {
    pub text: Seq<char>,
    pub folds: Seq<Fold>,
    pub wrap: Option<usize>,
}

impl DisplayView {
    /// The folds are well formed for the text.
    pub open spec fn wf(self) -> bool {
        folds_wf(self.text, self.folds)
    }

    /// The offset behind the display unit that starts at `p`: the end of
    /// the fold that starts there, or else the next offset.
    pub open spec fn unit_end(self, p: int) -> int {
        if fold_starts(self.folds, p) && fold_from(self.folds, p).end as int > p {
            fold_from(self.folds, p).end as int
        } else {
            p + 1
        }
    }

    /// The number of offsets from `from` to the end of the text.
    pub open spec fn remaining(self, from: int) -> nat {
        if from < self.text.len() {
            (self.text.len() - from) as nat
        } else {
            0
        }
    }

    /// The unit that starts at `p` may open a new display row: it is a fold
    /// or a character that neither ends the line nor continues a cluster.
    pub open spec fn breakable(self, p: int) -> bool {
        0 <= p < self.text.len() && (fold_starts(self.folds, p) || (self.text[p] != '\n'
            && !extends_cluster(self.text[p])))
    }

    /// The unit that starts at `p` is moved to a new row: the row is full and
    /// the unit may open a new one.
    pub open spec fn wraps(self, p: int, cur: Cell) -> bool {
        self.wrap is Some && cur.col >= self.wrap->0 && cur.col > 0 && self.breakable(p)
    }

    /// The cell in which the unit that starts at `p` is drawn, when `cur` is
    /// the cell reached behind the unit in front of it.
    pub open spec fn place(self, p: int, cur: Cell) -> Cell {
        if self.wraps(p, cur) {
            Cell { row: cur.row + 1, col: 0 }
        } else {
            cur
        }
    }

    /// The cell reached behind the unit that starts at `p` and is drawn at
    /// `placed`. A fold and a character take one column; a line end opens
    /// the next row.
    pub open spec fn advance(self, p: int, placed: Cell) -> Cell {
        if !fold_starts(self.folds, p) && 0 <= p < self.text.len() && self.text[p] == '\n' {
            Cell { row: placed.row + 1, col: 0 }
        } else {
            Cell { row: placed.row, col: placed.col + 1 }
        }
    }

    /// The cell of offset `target`, walking the units from the one that
    /// starts at `from`, which follows cell `cur`. An offset inside a fold
    /// has the cell of the fold; an offset behind the text has the cell of
    /// its end.
    pub open spec fn reach(self, from: int, cur: Cell, target: int) -> Cell
        decreases self.remaining(from),
    {
        if from >= self.text.len() || target < self.unit_end(from) {
            self.place(from, cur)
        } else {
            self.reach(self.unit_end(from), self.advance(from, self.place(from, cur)), target)
        }
    }

    /// The last unit start, from `from` on, whose cell does not come after
    /// `target`. The walk is at the unit that starts at `from`, which follows
    /// cell `cur`.
    pub open spec fn seek(self, from: int, cur: Cell, target: Cell) -> int
        decreases self.remaining(from),
    {
        if from >= self.text.len() {
            from
        } else {
            let next = self.unit_end(from);
            let behind = self.advance(from, self.place(from, cur));
            if cell_lt(target, self.place(next, behind)) {
                from
            } else {
                self.seek(next, behind, target)
            }
        }
    }

    /// The display cell of an offset.
    pub open spec fn offset_to_display(self, offset: int) -> Cell {
        self.reach(0, Cell { row: 0, col: 0 }, offset)
    }

    /// The offset of a display cell: the last offset whose cell does not come
    /// after it. A column behind the end of a row gives the last offset of
    /// that row, and a row behind the last one gives the end of the text.
    pub open spec fn display_to_offset(self, cell: Cell) -> int {
        self.seek(0, Cell { row: 0, col: 0 }, cell)
    }
}

/// Each unit is drawn strictly behind the one in front of it.
pub proof fn lemma_next_cell_later(m: DisplayView, p: int, cur: Cell)
    ensures
        cell_lt(
            m.place(p, cur),
            m.place(m.unit_end(p), m.advance(p, m.place(p, cur))),
        ),
        cell_le(cur, m.place(p, cur)),
        m.unit_end(p) > p,
{
}

/// The cell of an offset does not come before the cell of the unit the walk
/// starts at.
pub proof fn lemma_reach_later(m: DisplayView, from: int, cur: Cell, target: int)
    ensures
        cell_le(m.place(from, cur), m.reach(from, cur, target)),
    decreases m.remaining(from),
{
    if from >= m.text.len() || target < m.unit_end(from) {
    } else {
        lemma_next_cell_later(m, from, cur);
        lemma_reach_later(m, m.unit_end(from), m.advance(from, m.place(from, cur)), target);
    }
}

/// A walk that starts outside every fold never enters one.
pub proof fn lemma_unit_end_outside(m: DisplayView, p: int)
    requires
        m.wf(),
        0 <= p < m.text.len(),
        !inside_fold(m.folds, p),
    ensures
        !inside_fold(m.folds, m.unit_end(p)),
        p < m.unit_end(p) <= m.text.len(),
        forall|o: int| p < o < m.unit_end(p) ==> inside_fold(m.folds, o) && visible_offset(m.folds, o) == p,
{
    let q = m.unit_end(p);
    if fold_starts(m.folds, p) {
        let i = choose|i: int| 0 <= i < m.folds.len() && (#[trigger] m.folds[i]).start == p;
        assert(m.folds[i].start < m.folds[i].end);
        assert(q == m.folds[i].end);
        if inside_fold(m.folds, q) {
            let j = choose|j: int| 0 <= j < m.folds.len() && (#[trigger] m.folds[j]).start < q < m.folds[j].end;
            if j < i {
                assert(m.folds[j].end <= m.folds[i].start);
            } else if i < j {
                assert(m.folds[i].end <= m.folds[j].start);
            }
            assert(false);
        }
        assert forall|o: int| p < o < q implies inside_fold(m.folds, o) && visible_offset(m.folds, o) == p by {
            assert(m.folds[i].start < o < m.folds[i].end);
            let j = choose|j: int| 0 <= j < m.folds.len() && (#[trigger] m.folds[j]).start < o < m.folds[j].end;
            if j < i {
                assert(m.folds[j].end <= m.folds[i].start);
            } else if i < j {
                assert(m.folds[i].end <= m.folds[j].start);
            }
        }
    } else {
        assert(q == p + 1);
        if inside_fold(m.folds, q) {
            let j = choose|j: int| 0 <= j < m.folds.len() && (#[trigger] m.folds[j]).start < q < m.folds[j].end;
            assert(m.folds[j].start <= p);
            if m.folds[j].start == p {
                assert(fold_starts(m.folds, p));
            } else {
                assert(m.folds[j].start < p < m.folds[j].end);
            }
            assert(false);
        }
    }
}

/// The round trip from a unit start: seeking the cell of `o` finds the
/// offset that stands for `o` on the display.
pub proof fn lemma_seek_reach(m: DisplayView, from: int, cur: Cell, o: int)
    requires
        m.wf(),
        0 <= from <= o <= m.text.len(),
        !inside_fold(m.folds, from),
    ensures
        m.seek(from, cur, m.reach(from, cur, o)) == visible_offset(m.folds, o),
    decreases m.remaining(from),
{
    if from >= m.text.len() {
    } else {
        lemma_unit_end_outside(m, from);
        lemma_next_cell_later(m, from, cur);
        let next = m.unit_end(from);
        let behind = m.advance(from, m.place(from, cur));
        if o < next {
        } else {
            lemma_reach_later(m, next, behind, o);
            lemma_seek_reach(m, next, behind, o);
        }
    }
}

/// Round trip. For every offset of the text, the offset of its display cell
/// is the offset itself where no fold hides it, and the start of the fold
/// that hides it otherwise.
pub proof fn lemma_round_trip(m: DisplayView, o: int)
    requires
        m.wf(),
        0 <= o <= m.text.len(),
    ensures
        m.display_to_offset(m.offset_to_display(o)) == visible_offset(m.folds, o),
        !inside_fold(m.folds, o) ==> m.display_to_offset(m.offset_to_display(o)) == o,
{
    assert(!inside_fold(m.folds, 0));
    lemma_seek_reach(m, 0, Cell { row: 0, col: 0 }, o);
}


impl View for DisplayPoint {
    type V = Cell;

    open spec fn view(&self) -> Cell {
        Cell { row: self.row as int, col: self.column as int }
    }
}

/// The fold and the range `start..end` have an offset in common.
pub open spec fn intersects(f: Fold, start: int, end: int) -> bool {
    f.start < end && start < f.end
}

/// Some fold intersects the range `start..end`.
pub open spec fn any_intersects(folds: Seq<Fold>, start: int, end: int) -> bool {
    exists|i: int| 0 <= i < folds.len() && intersects(#[trigger] folds[i], start, end)
}

/// The range can be folded in the text: it is not empty, lies within the
/// text and splits no cluster.
pub open spec fn fold_allowed(text: Seq<char>, start: int, end: int) -> bool {
    &&& 0 <= start < end <= text.len()
    &&& cluster_boundary(text, start)
    &&& cluster_boundary(text, end)
}

/// The folds with `f` put in its place in ascending order.
pub open spec fn with_fold(folds: Seq<Fold>, f: Fold) -> Seq<Fold>
    decreases folds.len(),
{
    if folds.len() == 0 {
        seq![f]
    } else if folds.last().start >= f.end {
        with_fold(folds.drop_last(), f).push(folds.last())
    } else {
        folds.push(f)
    }
}

/// The folds that do not intersect the range `start..end`, in their order.
pub open spec fn without_intersecting(folds: Seq<Fold>, start: int, end: int) -> Seq<Fold>
    decreases folds.len(),
{
    if folds.len() == 0 {
        folds
    } else if intersects(folds.last(), start, end) {
        without_intersecting(folds.drop_last(), start, end)
    } else {
        without_intersecting(folds.drop_last(), start, end).push(folds.last())
    }
}

impl DisplayView {
    /// The mapping with one more fold.
    pub open spec fn folded(self, f: Fold) -> DisplayView {
        DisplayView { text: self.text, folds: with_fold(self.folds, f), wrap: self.wrap }
    }

    /// The mapping without the folds that intersect `start..end`.
    pub open spec fn unfolded(self, start: int, end: int) -> DisplayView {
        DisplayView {
            text: self.text,
            folds: without_intersecting(self.folds, start, end),
            wrap: self.wrap,
        }
    }
}

/// Where no fold intersects the range, unfolding it removes nothing.
pub proof fn lemma_unfold_nothing(folds: Seq<Fold>, start: int, end: int)
    requires
        !any_intersects(folds, start, end),
    ensures
        without_intersecting(folds, start, end) == folds,
    decreases folds.len(),
{
    if folds.len() > 0 {
        assert(!intersects(folds[folds.len() - 1], start, end));
        assert forall|i: int| 0 <= i < folds.drop_last().len() implies !intersects(
            #[trigger] folds.drop_last()[i],
            start,
            end,
        ) by {
            assert(!intersects(folds[i], start, end));
        }
        lemma_unfold_nothing(folds.drop_last(), start, end);
        assert(folds.drop_last().push(folds.last()) == folds);
    }
}

/// Putting a fold in and taking out what intersects its range gives back
/// the folds there were, where none of them intersected the range.
pub proof fn lemma_unfold_with_fold(folds: Seq<Fold>, f: Fold)
    requires
        f.start < f.end,
        !any_intersects(folds, f.start as int, f.end as int),
    ensures
        without_intersecting(with_fold(folds, f), f.start as int, f.end as int) == folds,
    decreases folds.len(),
{
    let s = f.start as int;
    let e = f.end as int;
    if folds.len() == 0 {
        let one = seq![f];
        assert(one.drop_last() == folds);
        assert(one.last() == f);
        assert(intersects(f, s, e));
        assert(without_intersecting(one, s, e) == without_intersecting(one.drop_last(), s, e));
    } else if folds.last().start >= f.end {
        let rest = folds.drop_last();
        assert forall|i: int| 0 <= i < rest.len() implies !intersects(#[trigger] rest[i], s, e) by {
            assert(!intersects(folds[i], s, e));
        }
        lemma_unfold_with_fold(rest, f);
        let grown = with_fold(rest, f).push(folds.last());
        assert(grown.drop_last() == with_fold(rest, f));
        assert(grown.last() == folds.last());
        assert(!intersects(folds[folds.len() - 1], s, e));
        assert(without_intersecting(grown, s, e) == without_intersecting(
            grown.drop_last(),
            s,
            e,
        ).push(folds.last()));
        assert(rest.push(folds.last()) == folds);
    } else {
        let grown = folds.push(f);
        assert(grown.drop_last() == folds);
        assert(grown.last() == f);
        assert(intersects(f, s, e));
        assert(without_intersecting(grown, s, e) == without_intersecting(grown.drop_last(), s, e));
        lemma_unfold_nothing(folds, s, e);
    }
}

/// Folding a range and at once unfolding the same range restores the
/// mapping: every offset has the display cell it had before. This holds
/// where the fold was accepted, that is, where the range is not empty and
/// intersects no fold.
pub proof fn lemma_fold_unfold_restores(m: DisplayView, f: Fold)
    requires
        f.start < f.end,
        !any_intersects(m.folds, f.start as int, f.end as int),
    ensures
        m.folded(f).unfolded(f.start as int, f.end as int) == m,
        forall|o: int|
            m.folded(f).unfolded(f.start as int, f.end as int).offset_to_display(o)
                == m.offset_to_display(o),
{
    lemma_unfold_with_fold(m.folds, f);
}

/// A fold that passed the checks goes to index `k`, behind the folds that
/// end in front of it and in front of those that start behind it.
pub proof fn lemma_with_fold_at(text: Seq<char>, folds: Seq<Fold>, f: Fold, k: int)
    requires
        folds_wf(text, folds),
        fold_allowed(text, f.start as int, f.end as int),
        0 <= k <= folds.len(),
        forall|i: int| 0 <= i < k ==> (#[trigger] folds[i]).end <= f.start,
        forall|i: int| k <= i < folds.len() ==> (#[trigger] folds[i]).start >= f.end,
    ensures
        with_fold(folds, f) == folds.insert(k, f),
        folds_wf(text, with_fold(folds, f)),
        !any_intersects(folds, f.start as int, f.end as int),
    decreases folds.len(),
{
    let n = folds.len() as int;
    if n == 0 {
        assert(seq![f] =~= folds.insert(k, f));
    } else if k < n {
        let rest = folds.drop_last();
        assert(folds[n - 1].start >= f.end);
        assert forall|i: int| 0 <= i < rest.len() implies (#[trigger] rest[i]).start < rest[i].end
            <= text.len() by {
            assert(folds[i].start < folds[i].end);
        }
        assert forall|i: int, j: int| 0 <= i < j < rest.len() implies (#[trigger] rest[i]).end <= (
        #[trigger] rest[j]).start by {
            assert(folds[i].end <= folds[j].start);
        }
        assert forall|i: int| 0 <= i < rest.len() implies cluster_boundary(
            text,
            (#[trigger] rest[i]).start as int,
        ) && cluster_boundary(text, rest[i].end as int) by {
            assert(cluster_boundary(text, folds[i].start as int));
        }
        assert forall|i: int| 0 <= i < k implies (#[trigger] rest[i]).end <= f.start by {
            assert(folds[i].end <= f.start);
        }
        assert forall|i: int| k <= i < rest.len() implies (#[trigger] rest[i]).start >= f.end by {
            assert(folds[i].start >= f.end);
        }
        lemma_with_fold_at(text, rest, f, k);
        assert(rest.insert(k, f).push(folds.last()) =~= folds.insert(k, f));
    } else {
        assert(folds[n - 1].end <= f.start);
        assert(folds[n - 1].start < folds[n - 1].end);
        assert(folds.push(f) =~= folds.insert(k, f));
    }
    let grown = folds.insert(k, f);
    assert forall|i: int| 0 <= i < grown.len() implies (#[trigger] grown[i]).start < grown[i].end
        <= text.len() && cluster_boundary(text, grown[i].start as int) && cluster_boundary(
        text,
        grown[i].end as int,
    ) by {
        if i < k {
            assert(grown[i] == folds[i]);
        } else if i > k {
            assert(grown[i] == folds[i - 1]);
        }
    }
    assert forall|i: int, j: int| 0 <= i < j < grown.len() implies (#[trigger] grown[i]).end <= (
    #[trigger] grown[j]).start by {
        if j < k {
            assert(folds[i].end <= folds[j].start);
        } else if j == k {
            assert(folds[i].end <= f.start);
        } else if i < k {
            assert(folds[i].end <= f.start);
            assert(folds[j - 1].start >= f.end);
        } else if i == k {
            assert(folds[j - 1].start >= f.end);
        } else {
            assert(folds[i - 1].end <= folds[j - 1].start);
        }
    }
    assert forall|i: int| 0 <= i < folds.len() implies !intersects(
        #[trigger] folds[i],
        f.start as int,
        f.end as int,
    ) by {
        if i < k {
            assert(folds[i].end <= f.start);
        } else {
            assert(folds[i].start >= f.end);
        }
    }
}

/// Every fold that is left after unfolding was there before, and two that
/// are left stand in the order they stood in.
pub proof fn lemma_without_keeps_order(text: Seq<char>, folds: Seq<Fold>, start: int, end: int)
    requires
        folds_wf(text, folds),
    ensures
        folds_wf(text, without_intersecting(folds, start, end)),
        without_intersecting(folds, start, end).len() <= folds.len(),
        forall|i: int|
            0 <= i < without_intersecting(folds, start, end).len() ==> folds.contains(
                #[trigger] without_intersecting(folds, start, end)[i],
            ),
    decreases folds.len(),
{
    let out = without_intersecting(folds, start, end);
    if folds.len() > 0 {
        let rest = folds.drop_last();
        let last = folds.last();
        assert forall|i: int| 0 <= i < rest.len() implies (#[trigger] rest[i]).start < rest[i].end
            <= text.len() && cluster_boundary(text, rest[i].start as int) && cluster_boundary(
            text,
            rest[i].end as int,
        ) by {
            assert(folds[i].start < folds[i].end);
        }
        assert forall|i: int, j: int| 0 <= i < j < rest.len() implies (#[trigger] rest[i]).end <= (
        #[trigger] rest[j]).start by {
            assert(folds[i].end <= folds[j].start);
        }
        lemma_without_keeps_order(text, rest, start, end);
        let kept = without_intersecting(rest, start, end);
        assert forall|i: int| 0 <= i < kept.len() implies folds.contains(#[trigger] kept[i])
            && kept[i].end <= last.start by {
            assert(rest.contains(kept[i]));
            let j = choose|j: int| 0 <= j < rest.len() && rest[j] == kept[i];
            assert(folds[j] == kept[i]);
            assert(folds[j].end <= folds[folds.len() - 1].start);
        }
        assert(folds[folds.len() - 1] == last);
        assert(folds.contains(last));
        assert forall|i: int| 0 <= i < out.len() implies folds.contains(#[trigger] out[i]) by {
            if i < kept.len() {
                assert(out[i] == kept[i]);
            }
        }
        assert forall|i: int| 0 <= i < out.len() implies (#[trigger] out[i]).start < out[i].end
            <= text.len() && cluster_boundary(text, out[i].start as int) && cluster_boundary(
            text,
            out[i].end as int,
        ) by {
            if i < kept.len() {
                assert(out[i] == kept[i]);
            } else {
                assert(out[i] == last);
                assert(folds[folds.len() - 1].start < folds[folds.len() - 1].end);
            }
        }
        assert forall|i: int, j: int| 0 <= i < j < out.len() implies (#[trigger] out[i]).end <= (
        #[trigger] out[j]).start by {
            if j < kept.len() {
                assert(kept[i].end <= kept[j].start);
            } else {
                assert(out[i] == kept[i]);
            }
        }
    }
}


/// Whether the character continues the cluster of the one in front of it.
pub fn continues_cluster(c: char) -> (r: bool)
    ensures
        r == extends_cluster(c),
{
    let n: u32 = c as u32;
    (0x0300 <= n && n <= 0x036F) || (0x1AB0 <= n && n <= 0x1AFF) || (0x1DC0 <= n && n <= 0x1DFF)
        || (0x20D0 <= n && n <= 0x20FF) || (0xFE00 <= n && n <= 0xFE0F) || (0xFE20 <= n && n
        <= 0xFE2F) || n == 0x200D
}

/// The walk stands at offset `p` with `k` folds behind it: the folds in
/// front of index `k` end at or before `p`, the others start at or behind it.
pub open spec fn folds_split(folds: Seq<Fold>, k: int, p: int) -> bool {
    &&& 0 <= k <= folds.len()
    &&& forall|i: int| 0 <= i < k ==> (#[trigger] folds[i]).end <= p
    &&& forall|i: int| k <= i < folds.len() ==> (#[trigger] folds[i]).start >= p
}

/// With the folds split at `p`, a fold starts at `p` exactly if the fold at
/// index `k` does, and then it is that fold.
pub proof fn lemma_fold_pointer(text: Seq<char>, folds: Seq<Fold>, k: int, p: int)
    requires
        folds_wf(text, folds),
        folds_split(folds, k, p),
    ensures
        fold_starts(folds, p) <==> (k < folds.len() && folds[k].start == p),
        fold_starts(folds, p) ==> fold_from(folds, p) == folds[k],
{
    if fold_starts(folds, p) {
        let i = choose|i: int| 0 <= i < folds.len() && (#[trigger] folds[i]).start == p;
        assert(folds[i].start < folds[i].end);
        if i > k {
            assert(folds[k].end <= folds[i].start);
            assert(folds[k].start < folds[k].end);
        }
    }
}

/// The split of the folds behind the unit that starts at `p`.
pub proof fn lemma_fold_pointer_next(m: DisplayView, k: int, p: int)
    requires
        m.wf(),
        folds_split(m.folds, k, p),
        0 <= p < m.text.len(),
    ensures
        folds_split(m.folds, if fold_starts(m.folds, p) { k + 1 } else { k }, m.unit_end(p)),
        p < m.unit_end(p) <= m.text.len(),
{
    let folds = m.folds;
    lemma_fold_pointer(m.text, folds, k, p);
    if fold_starts(folds, p) {
        assert(folds[k].start < folds[k].end <= m.text.len());
        assert forall|i: int| k + 1 <= i < folds.len() implies (#[trigger] folds[i]).start
            >= folds[k].end by {
            assert(folds[k].end <= folds[i].start);
        }
    } else {
        assert forall|i: int| k <= i < folds.len() implies (#[trigger] folds[i]).start >= p + 1 by {
            if i > k {
                assert(folds[k].end <= folds[i].start);
                assert(folds[k].start < folds[k].end);
            }
        }
    }
}

/// The display mapping of one text: its folds and its wrap width.
pub struct DisplayMap {
    text: Vec<char>,
    folds: Vec<Fold>,
    wrap_width: Option<usize>,
}

impl View for DisplayMap {
    type V = DisplayView;

    closed spec fn view(&self) -> DisplayView {
        DisplayView { text: self.text@, folds: self.folds@, wrap: self.wrap_width }
    }
}

impl DisplayMap {
    /// The folds are in order, disjoint and aligned with the text.
    pub open spec fn wf(&self) -> bool {
        self@.wf()
    }

    /// A mapping of the given text without folds.
    pub fn new(text: Vec<char>, wrap_width: Option<usize>) -> (m: DisplayMap)
        ensures
            m.wf(),
            m@ == (DisplayView { text: text@, folds: Seq::empty(), wrap: wrap_width }),
    {
        DisplayMap { text, folds: Vec::new(), wrap_width }
    }

    /// The number of characters of the mapped text.
    pub fn len(&self) -> (n: usize)
        ensures
            n == self@.text.len(),
    {
        self.text.len()
    }

    /// The folds, in ascending order.
    pub fn folds(&self) -> (folds: &Vec<Fold>)
        ensures
            folds@ == self@.folds,
    {
        &self.folds
    }

    /// The wrap width, if rows are wrapped.
    pub fn wrap_width(&self) -> (w: Option<usize>)
        ensures
            w == self@.wrap,
    {
        self.wrap_width
    }

    /// Sets or clears the wrap width. The folds stay.
    pub fn set_wrap_width(&mut self, wrap_width: Option<usize>)
        ensures
            final(self)@ == (DisplayView { wrap: wrap_width, ..old(self)@ }),
    {
        self.wrap_width = wrap_width;
    }

    /// Whether the offset splits no cluster of the text.
    pub fn is_cluster_boundary(&self, p: usize) -> (r: bool)
        ensures
            r == cluster_boundary(self@.text, p as int),
    {
        p == 0 || p >= self.text.len() || !continues_cluster(self.text[p])
    }

    /// Whether the unit at `p` is a fold, given the split of the folds.
    fn fold_here(&self, k: usize, p: usize) -> (r: bool)
        requires
            self.wf(),
            folds_split(self@.folds, k as int, p as int),
        ensures
            r == fold_starts(self@.folds, p as int),
            r ==> k < self@.folds.len() && k < usize::MAX && fold_from(self@.folds, p as int)
                == self@.folds[k as int],
    {
        proof {
            lemma_fold_pointer(self@.text, self@.folds, k as int, p as int);
        }
        k < self.folds.len() && self.folds[k].start == p
    }

    /// The cell in which the unit at `p` is drawn.
    fn placed(&self, k: usize, p: usize, row: usize, col: usize) -> (at: (usize, usize))
        requires
            self.wf(),
            folds_split(self@.folds, k as int, p as int),
            p < self@.text.len() ==> row <= p,
        ensures
            (Cell { row: at.0 as int, col: at.1 as int }) == self@.place(
                p as int,
                Cell { row: row as int, col: col as int },
            ),
    {
        match self.wrap_width {
            Some(w) => {
                if col >= w && col > 0 && p < self.text.len() && (self.fold_here(k, p) || (
                self.text[p] != '\n' && !continues_cluster(self.text[p]))) {
                    (row + 1, 0)
                } else {
                    (row, col)
                }
            },
            None => (row, col),
        }
    }

    /// The display cell of an offset. An offset inside a fold has the cell
    /// of the fold, and an offset behind the text has the cell of its end.
    pub fn offset_to_display(&self, offset: usize) -> (pt: DisplayPoint)
        requires
            self.wf(),
        ensures
            pt@ == self@.offset_to_display(offset as int),
    {
        let ghost m = self@;
        let n: usize = self.text.len();
        let mut p: usize = 0;
        let mut k: usize = 0;
        let mut row: usize = 0;
        let mut col: usize = 0;
        loop
            invariant
                self.wf(),
                m == self@,
                n == m.text.len(),
                p <= n,
                folds_split(m.folds, k as int, p as int),
                row <= p,
                col <= p,
                m.offset_to_display(offset as int) == m.reach(
                    p as int,
                    Cell { row: row as int, col: col as int },
                    offset as int,
                ),
            decreases n - p,
        {
            let at = self.placed(k, p, row, col);
            if p >= n {
                return DisplayPoint { row: at.0, column: at.1 };
            }
            proof {
                lemma_fold_pointer_next(m, k as int, p as int);
            }
            let folded = self.fold_here(k, p);
            let next: usize = if folded {
                self.folds[k].end
            } else {
                p + 1
            };
            if offset < next {
                return DisplayPoint { row: at.0, column: at.1 };
            }
            if !folded && self.text[p] == '\n' {
                row = at.0 + 1;
                col = 0;
            } else {
                row = at.0;
                col = at.1 + 1;
            }
            if folded {
                k += 1;
            }
            p = next;
        }
    }

    /// The offset of a display cell: the last offset whose cell does not come
    /// after the given one. A cell inside a fold gives the start of the fold,
    /// a column behind the end of a row gives the last offset of that row,
    /// and a row behind the last one gives the end of the text.
    pub fn display_to_offset(&self, row: usize, column: usize) -> (offset: usize)
        requires
            self.wf(),
        ensures
            offset == self@.display_to_offset(Cell { row: row as int, col: column as int }),
            offset <= self@.text.len(),
    {
        let ghost m = self@;
        let ghost target = Cell { row: row as int, col: column as int };
        let n: usize = self.text.len();
        let mut p: usize = 0;
        let mut k: usize = 0;
        let mut r: usize = 0;
        let mut c: usize = 0;
        loop
            invariant
                self.wf(),
                m == self@,
                n == m.text.len(),
                p <= n,
                folds_split(m.folds, k as int, p as int),
                r <= p,
                c <= p,
                target == (Cell { row: row as int, col: column as int }),
                m.display_to_offset(target) == m.seek(
                    p as int,
                    Cell { row: r as int, col: c as int },
                    target,
                ),
            decreases n - p,
        {
            if p >= n {
                return p;
            }
            proof {
                lemma_fold_pointer_next(m, k as int, p as int);
            }
            let at = self.placed(k, p, r, c);
            let folded = self.fold_here(k, p);
            let next: usize = if folded {
                self.folds[k].end
            } else {
                p + 1
            };
            let next_k: usize = if folded {
                k + 1
            } else {
                k
            };
            let behind: (usize, usize) = if !folded && self.text[p] == '\n' {
                (at.0 + 1, 0)
            } else {
                (at.0, at.1 + 1)
            };
            let ahead = self.placed(next_k, next, behind.0, behind.1);
            if row < ahead.0 || (row == ahead.0 && column < ahead.1) {
                return p;
            }
            p = next;
            k = next_k;
            r = behind.0;
            c = behind.1;
        }
    }

    /// Collapses the range `start..end` to one display column. A range that
    /// intersects a fold is rejected with `OverlappingFold`, whatever else
    /// holds of it. A range that intersects no fold but is empty, reversed,
    /// reaches behind the text or splits a cluster is rejected with
    /// `InvalidRange`. A rejected request changes nothing.
    pub fn fold(&mut self, start: usize, end: usize) -> (r: Result<(), Error>)
        requires
            old(self).wf(),
        ensures
            final(self).wf(),
            match r {
                Ok(_) => {
                    &&& fold_allowed(old(self)@.text, start as int, end as int)
                    &&& !any_intersects(old(self)@.folds, start as int, end as int)
                    &&& final(self)@ == old(self)@.folded(Fold { start, end })
                },
                Err(e) => {
                    &&& *final(self) == *old(self)
                    &&& e == Error::InvalidRange || e == Error::OverlappingFold
                    &&& e == Error::OverlappingFold <==> any_intersects(
                        old(self)@.folds,
                        start as int,
                        end as int,
                    )
                    &&& e == Error::InvalidRange <==> !any_intersects(
                        old(self)@.folds,
                        start as int,
                        end as int,
                    ) && !fold_allowed(old(self)@.text, start as int, end as int)
                },
            },
    {
        let ghost folds = self.folds@;
        let mut i: usize = 0;
        while i < self.folds.len()
            invariant
                *self == *old(self),
                self.wf(),
                i <= self.folds.len(),
                folds == self.folds@,
                forall|j: int| 0 <= j < i ==> !intersects(#[trigger] folds[j], start as int, end as int),
            decreases self.folds.len() - i,
        {
            let f = self.folds[i];
            if f.start < end && start < f.end {
                assert(intersects(folds[i as int], start as int, end as int));
                return Err(Error::OverlappingFold);
            }
            i += 1;
        }
        if start >= end || end > self.text.len() || !self.is_cluster_boundary(start)
            || !self.is_cluster_boundary(end) {
            return Err(Error::InvalidRange);
        }
        let mut k: usize = 0;
        while k < self.folds.len() && self.folds[k].end <= start
            invariant
                k <= self.folds.len(),
                folds == self.folds@,
                forall|i: int| 0 <= i < k ==> (#[trigger] folds[i]).end <= start,
            decreases self.folds.len() - k,
        {
            k += 1;
        }
        proof {
            assert forall|i: int| k <= i < folds.len() implies (#[trigger] folds[i]).start >= end by {
                assert(!intersects(folds[k as int], start as int, end as int));
                if i > k {
                    assert(folds[k as int].end <= folds[i].start);
                    assert(folds[k as int].start < folds[k as int].end);
                }
            }
            lemma_with_fold_at(self@.text, folds, Fold { start, end }, k as int);
        }
        self.folds.insert(k, Fold { start, end });
        Ok(())
    }

    /// Removes every fold that intersects the range `start..end` and returns
    /// how many there were.
    pub fn unfold(&mut self, start: usize, end: usize) -> (removed: usize)
        requires
            old(self).wf(),
        ensures
            final(self).wf(),
            final(self)@ == old(self)@.unfolded(start as int, end as int),
            removed == old(self)@.folds.len() - final(self)@.folds.len(),
    {
        let ghost folds = self.folds@;
        let mut kept: Vec<Fold> = Vec::new();
        let mut i: usize = 0;
        proof {
            assert(folds.take(0) =~= Seq::empty());
        }
        while i < self.folds.len()
            invariant
                i <= self.folds.len(),
                folds == self.folds@,
                kept@ == without_intersecting(folds.take(i as int), start as int, end as int),
            decreases self.folds.len() - i,
        {
            let f = self.folds[i];
            proof {
                assert(folds.take(i + 1).drop_last() == folds.take(i as int));
                assert(folds.take(i + 1).last() == f);
            }
            if !(f.start < end && start < f.end) {
                kept.push(f);
            }
            i += 1;
        }
        proof {
            assert(folds.take(i as int) == folds);
            lemma_without_keeps_order(self@.text, folds, start as int, end as int);
        }
        let removed: usize = self.folds.len() - kept.len();
        self.folds = kept;
        removed
    }
}


impl DisplayView {
    /// The number of display rows.
    pub open spec fn rows(self) -> int {
        self.offset_to_display(self.text.len() as int).row + 1
    }
}

/// The walk keeps the order of the offsets: a later offset has no earlier
/// cell.
pub proof fn lemma_reach_monotonic(m: DisplayView, from: int, cur: Cell, o1: int, o2: int)
    requires
        o1 <= o2,
    ensures
        cell_le(m.reach(from, cur, o1), m.reach(from, cur, o2)),
    decreases m.remaining(from),
{
    if from >= m.text.len() || o1 < m.unit_end(from) {
        lemma_reach_later(m, from, cur, o2);
    } else {
        lemma_next_cell_later(m, from, cur);
        lemma_reach_monotonic(m, m.unit_end(from), m.advance(from, m.place(from, cur)), o1, o2);
    }
}

/// The display follows the text: of two offsets, the later one is not drawn
/// before the earlier one.
pub proof fn lemma_display_monotonic(m: DisplayView, o1: int, o2: int)
    requires
        o1 <= o2,
    ensures
        cell_le(m.offset_to_display(o1), m.offset_to_display(o2)),
{
    lemma_reach_monotonic(m, 0, Cell { row: 0, col: 0 }, o1, o2);
}

/// The walk to the end of a text does not get further when the text goes on.
pub proof fn lemma_reach_end_grows(m: DisplayView, more: Seq<char>, from: int, cur: Cell)
    requires
        m.wf(),
        0 <= from <= m.text.len(),
        !inside_fold(m.folds, from),
    ensures
        cell_le(
            m.reach(from, cur, m.text.len() as int),
            (DisplayView { text: m.text + more, ..m }).reach(
                from,
                cur,
                (m.text + more).len() as int,
            ),
        ),
    decreases m.remaining(from),
{
    let grown = DisplayView { text: m.text + more, ..m };
    if from >= m.text.len() {
        lemma_reach_later(grown, from, cur, grown.text.len() as int);
        lemma_next_cell_later(grown, from, cur);
    } else {
        lemma_unit_end_outside(m, from);
        lemma_next_cell_later(m, from, cur);
        assert(grown.text[from] == m.text[from]);
        assert(grown.unit_end(from) == m.unit_end(from));
        assert(grown.place(from, cur) == m.place(from, cur));
        assert(grown.advance(from, grown.place(from, cur)) == m.advance(from, m.place(from, cur)));
        lemma_reach_end_grows(m, more, m.unit_end(from), m.advance(from, m.place(from, cur)));
    }
}

/// The number of display rows does not fall when the text grows at its end,
/// with the folds and the wrap width as they are.
pub proof fn lemma_rows_grow_with_text(m: DisplayView, more: Seq<char>)
    requires
        m.wf(),
    ensures
        m.rows() <= (DisplayView { text: m.text + more, ..m }).rows(),
{
    assert(!inside_fold(m.folds, 0));
    lemma_reach_end_grows(m, more, 0, Cell { row: 0, col: 0 });
}

/// What the seek finds, from a unit start whose cell does not come after
/// the target: an offset outside every fold whose cell does not come after
/// the target, while every offset behind it that it does not stand for has
/// a cell behind the target.
pub proof fn lemma_seek_is_last(m: DisplayView, from: int, cur: Cell, target: Cell)
    requires
        m.wf(),
        0 <= from <= m.text.len(),
        !inside_fold(m.folds, from),
        cell_le(m.place(from, cur), target),
    ensures
        from <= m.seek(from, cur, target) <= m.text.len(),
        !inside_fold(m.folds, m.seek(from, cur, target)),
        cell_le(m.reach(from, cur, m.seek(from, cur, target)), target),
        forall|o: int|
            m.seek(from, cur, target) < o <= m.text.len() && visible_offset(m.folds, o) != m.seek(
                from,
                cur,
                target,
            ) ==> cell_lt(target, #[trigger] m.reach(from, cur, o)),
    decreases m.remaining(from),
{
    if from < m.text.len() {
        lemma_unit_end_outside(m, from);
        lemma_next_cell_later(m, from, cur);
        let next = m.unit_end(from);
        let behind = m.advance(from, m.place(from, cur));
        if cell_lt(target, m.place(next, behind)) {
            assert forall|o: int|
                from < o <= m.text.len() && visible_offset(m.folds, o) != from implies cell_lt(
                target,
                #[trigger] m.reach(from, cur, o),
            ) by {
                if o >= next {
                    lemma_reach_later(m, next, behind, o);
                }
            }
        } else {
            lemma_seek_is_last(m, next, behind, target);
            let found = m.seek(next, behind, target);
            assert forall|o: int|
                found < o <= m.text.len() && visible_offset(m.folds, o) != found implies cell_lt(
                target,
                #[trigger] m.reach(from, cur, o),
            ) by {
                assert(m.reach(from, cur, o) == m.reach(next, behind, o));
            }
        }
    }
}

/// What `display_to_offset` means: for a cell of non-negative row and
/// column, its result is an offset outside every fold whose cell does not
/// come after the given cell, and every later offset that it does not stand
/// for has a cell behind the given one. So a column behind the end of a row
/// gives the last offset of that row, and a cell of a fold gives the start
/// of the fold.
pub proof fn lemma_display_to_offset_is_last(m: DisplayView, cell: Cell)
    requires
        m.wf(),
        0 <= cell.row,
        0 <= cell.col,
    ensures
        0 <= m.display_to_offset(cell) <= m.text.len(),
        !inside_fold(m.folds, m.display_to_offset(cell)),
        cell_le(m.offset_to_display(m.display_to_offset(cell)), cell),
        forall|o: int|
            m.display_to_offset(cell) < o <= m.text.len() && visible_offset(m.folds, o)
                != m.display_to_offset(cell) ==> cell_lt(cell, #[trigger] m.offset_to_display(o)),
{
    assert(!inside_fold(m.folds, 0));
    lemma_seek_is_last(m, 0, Cell { row: 0, col: 0 }, cell);
}

impl DisplayMap {
    /// The last display row; the rows are counted from 0.
    pub fn last_row(&self) -> (row: usize)
        requires
            self.wf(),
        ensures
            row == self@.rows() - 1,
    {
        self.offset_to_display(self.text.len()).row
    }
}


/// A fold that can be put among well-formed folds has its place among them:
/// an index with the folds that end in front of it before and the folds
/// that start behind it after.
pub proof fn lemma_fold_place(text: Seq<char>, folds: Seq<Fold>, f: Fold) -> (k: int)
    requires
        folds_wf(text, folds),
        f.start < f.end,
        !any_intersects(folds, f.start as int, f.end as int),
    ensures
        0 <= k <= folds.len(),
        forall|i: int| 0 <= i < k ==> (#[trigger] folds[i]).end <= f.start,
        forall|i: int| k <= i < folds.len() ==> (#[trigger] folds[i]).start >= f.end,
    decreases folds.len(),
{
    let n = folds.len() as int;
    if n == 0 {
        0
    } else {
        let last = folds[n - 1];
        assert(!intersects(last, f.start as int, f.end as int));
        if last.start >= f.end {
            let rest = folds.drop_last();
            assert forall|i: int| 0 <= i < rest.len() implies (#[trigger] rest[i]).start
                < rest[i].end <= text.len() && cluster_boundary(text, rest[i].start as int)
                && cluster_boundary(text, rest[i].end as int) by {
                assert(folds[i].start < folds[i].end);
            }
            assert forall|i: int, j: int| 0 <= i < j < rest.len() implies (#[trigger] rest[i]).end
                <= (#[trigger] rest[j]).start by {
                assert(folds[i].end <= folds[j].start);
            }
            assert forall|i: int| 0 <= i < rest.len() implies !intersects(
                #[trigger] rest[i],
                f.start as int,
                f.end as int,
            ) by {
                assert(!intersects(folds[i], f.start as int, f.end as int));
            }
            let k = lemma_fold_place(text, rest, f);
            assert forall|i: int| 0 <= i < k implies (#[trigger] folds[i]).end <= f.start by {
                assert(rest[i].end <= f.start);
            }
            assert forall|i: int| k <= i < folds.len() implies (#[trigger] folds[i]).start
                >= f.end by {
                if i < n - 1 {
                    assert(rest[i].start >= f.end);
                }
            }
            k
        } else {
            assert forall|i: int| 0 <= i < n implies (#[trigger] folds[i]).end <= f.start by {
                if i < n - 1 {
                    assert(folds[i].end <= folds[n - 1].start);
                    assert(folds[n - 1].start < folds[n - 1].end);
                }
            }
            n
        }
    }
}

/// Unfolding a range after a fold was put in: the fold goes if it
/// intersects the range, and else it is put among the folds that stay.
pub proof fn lemma_unfold_after_fold(text: Seq<char>, folds: Seq<Fold>, f: Fold, start: int, end: int)
    requires
        folds_wf(text, folds),
        fold_allowed(text, f.start as int, f.end as int),
        !any_intersects(folds, f.start as int, f.end as int),
    ensures
        intersects(f, start, end) ==> without_intersecting(with_fold(folds, f), start, end)
            == without_intersecting(folds, start, end),
        !intersects(f, start, end) ==> without_intersecting(with_fold(folds, f), start, end)
            == with_fold(without_intersecting(folds, start, end), f),
        folds_wf(text, with_fold(folds, f)),
        folds_wf(text, without_intersecting(folds, start, end)),
        !any_intersects(without_intersecting(folds, start, end), f.start as int, f.end as int),
{
    let k = lemma_fold_place(text, folds, f);
    lemma_with_fold_at(text, folds, f, k);
    lemma_unfold_inserted(folds, f, k, start, end);
    lemma_kept_parts(text, folds, f, k, start, end);
    let kept_front = without_intersecting(folds.take(k), start, end);
    let kept_back = without_intersecting(folds.skip(k), start, end);
    let kept = without_intersecting(folds, start, end);
    lemma_with_fold_at(text, kept, f, kept_front.len() as int);
    assert(kept.insert(kept_front.len() as int, f) =~= kept_front.push(f) + kept_back);
}

/// Unfolding a range after a fold was inserted at index `k`.
pub proof fn lemma_unfold_inserted(folds: Seq<Fold>, f: Fold, k: int, start: int, end: int)
    requires
        0 <= k <= folds.len(),
    ensures
        without_intersecting(folds, start, end) == without_intersecting(folds.take(k), start, end)
            + without_intersecting(folds.skip(k), start, end),
        intersects(f, start, end) ==> without_intersecting(folds.insert(k, f), start, end)
            == without_intersecting(folds, start, end),
        !intersects(f, start, end) ==> without_intersecting(folds.insert(k, f), start, end)
            == without_intersecting(folds.take(k), start, end).push(f) + without_intersecting(
            folds.skip(k),
            start,
            end,
        ),
{
    let front = folds.take(k);
    let back = folds.skip(k);
    assert(folds.insert(k, f) =~= front.push(f) + back);
    assert(folds =~= front + back);
    lemma_without_distributes(front.push(f), back, start, end);
    lemma_without_distributes(front, back, start, end);
    assert(front.push(f).drop_last() == front);
    assert(front.push(f).last() == f);
}

/// The folds that stay of those in front of a fold's place end in front of
/// the fold, and the folds that stay of the others start behind it.
pub proof fn lemma_kept_parts(text: Seq<char>, folds: Seq<Fold>, f: Fold, k: int, start: int, end: int)
    requires
        folds_wf(text, folds),
        0 <= k <= folds.len(),
        forall|i: int| 0 <= i < k ==> (#[trigger] folds[i]).end <= f.start,
        forall|i: int| k <= i < folds.len() ==> (#[trigger] folds[i]).start >= f.end,
    ensures
        ({
            let kept_front = without_intersecting(folds.take(k), start, end);
            let kept = without_intersecting(folds, start, end);
            &&& folds_wf(text, kept)
            &&& kept_front.len() <= kept.len()
            &&& forall|i: int| 0 <= i < kept_front.len() ==> (#[trigger] kept[i]).end <= f.start
            &&& forall|i: int| kept_front.len() <= i < kept.len() ==> (#[trigger] kept[i]).start >= f.end
        }),
{
    lemma_members_of_part(text, folds, k, start, end);
    let front = folds.take(k);
    let back = folds.skip(k);
    let kept_front = without_intersecting(front, start, end);
    let kept_back = without_intersecting(back, start, end);
    let kept = without_intersecting(folds, start, end);
    assert forall|i: int| 0 <= i < kept_front.len() implies (#[trigger] kept[i]).end <= f.start by {
        assert(kept[i] == kept_front[i]);
        assert(front.contains(kept_front[i]));
        let j = choose|j: int| 0 <= j < front.len() && front[j] == kept_front[i];
        assert(folds[j].end <= f.start);
    }
    assert forall|i: int| kept_front.len() <= i < kept.len() implies (#[trigger] kept[i]).start
        >= f.end by {
        let at = i - kept_front.len();
        assert(kept[i] == kept_back[at]);
        assert(back.contains(kept_back[at]));
        let j = choose|j: int| 0 <= j < back.len() && back[j] == kept_back[at];
        assert(folds[j + k].start >= f.end);
    }
}

/// Unfolding two joined sequences of folds unfolds each of them.
pub proof fn lemma_without_distributes(a: Seq<Fold>, b: Seq<Fold>, start: int, end: int)
    ensures
        without_intersecting(a + b, start, end) == without_intersecting(a, start, end)
            + without_intersecting(b, start, end),
    decreases b.len(),
{
    if b.len() == 0 {
        assert(a + b == a);
        assert(without_intersecting(a, start, end) + without_intersecting(b, start, end)
            =~= without_intersecting(a, start, end));
    } else {
        assert((a + b).drop_last() == a + b.drop_last());
        assert((a + b).last() == b.last());
        lemma_without_distributes(a, b.drop_last(), start, end);
        if !intersects(b.last(), start, end) {
            assert((without_intersecting(a, start, end) + without_intersecting(
                b.drop_last(),
                start,
                end,
            )).push(b.last()) =~= without_intersecting(a, start, end) + without_intersecting(
                b.drop_last(),
                start,
                end,
            ).push(b.last()));
        }
    }
}

/// The folds that stay of the first `k` folds end in front of every fold
/// from index `k` on, and those that stay of the others start behind every
/// fold in front of index `k`; together they are the folds that stay.
pub proof fn lemma_members_of_part(text: Seq<char>, folds: Seq<Fold>, k: int, start: int, end: int)
    requires
        folds_wf(text, folds),
        0 <= k <= folds.len(),
    ensures
        folds_wf(text, without_intersecting(folds, start, end)),
        without_intersecting(folds, start, end) == without_intersecting(folds.take(k), start, end)
            + without_intersecting(folds.skip(k), start, end),
        forall|i: int|
            0 <= i < without_intersecting(folds.take(k), start, end).len() ==> folds.take(
                k,
            ).contains(#[trigger] without_intersecting(folds.take(k), start, end)[i]),
        forall|i: int|
            0 <= i < without_intersecting(folds.skip(k), start, end).len() ==> folds.skip(
                k,
            ).contains(#[trigger] without_intersecting(folds.skip(k), start, end)[i]),
{
    let front = folds.take(k);
    let back = folds.skip(k);
    assert(folds =~= front + back);
    lemma_without_distributes(front, back, start, end);
    lemma_without_keeps_order(text, folds, start, end);
    assert(folds_wf(text, front)) by {
        assert forall|i: int| 0 <= i < front.len() implies (#[trigger] front[i]).start
            < front[i].end <= text.len() && cluster_boundary(text, front[i].start as int)
            && cluster_boundary(text, front[i].end as int) by {
            assert(folds[i].start < folds[i].end);
        }
        assert forall|i: int, j: int| 0 <= i < j < front.len() implies (#[trigger] front[i]).end
            <= (#[trigger] front[j]).start by {
            assert(folds[i].end <= folds[j].start);
        }
    }
    assert(folds_wf(text, back)) by {
        assert forall|i: int| 0 <= i < back.len() implies (#[trigger] back[i]).start < back[i].end
            <= text.len() && cluster_boundary(text, back[i].start as int) && cluster_boundary(
            text,
            back[i].end as int,
        ) by {
            assert(folds[i + k].start < folds[i + k].end);
        }
        assert forall|i: int, j: int| 0 <= i < j < back.len() implies (#[trigger] back[i]).end <= (
        #[trigger] back[j]).start by {
            assert(folds[i + k].end <= folds[j + k].start);
        }
    }
    lemma_without_keeps_order(text, front, start, end);
    lemma_without_keeps_order(text, back, start, end);
}


/// Two mappings agree in front of offset `p`: they wrap at the same width,
/// and up to `p` they have the same characters and the same folds.
pub open spec fn agree_before(m1: DisplayView, m2: DisplayView, p: int) -> bool {
    &&& m1.wrap == m2.wrap
    &&& p <= m1.text.len()
    &&& p <= m2.text.len()
    &&& forall|q: int| 0 <= q < p ==> #[trigger] m1.text[q] == m2.text[q]
    &&& forall|q: int|
        0 <= q < p ==> (#[trigger] fold_starts(m1.folds, q) <==> fold_starts(m2.folds, q))
    &&& forall|q: int|
        0 <= q < p && #[trigger] fold_starts(m1.folds, q) ==> fold_from(m1.folds, q).end
            == fold_from(m2.folds, q).end
}

/// Where two mappings agree in front of `p`, their walks to an offset in
/// front of `p` agree.
pub proof fn lemma_reach_before_change(
    m1: DisplayView,
    m2: DisplayView,
    p: int,
    from: int,
    cur: Cell,
    o: int,
)
    requires
        agree_before(m1, m2, p),
        0 <= from <= o < p,
    ensures
        m1.reach(from, cur, o) == m2.reach(from, cur, o),
    decreases m1.remaining(from),
{
    assert(m1.text[from] == m2.text[from]);
    assert(fold_starts(m1.folds, from) <==> fold_starts(m2.folds, from));
    assert(m1.unit_end(from) == m2.unit_end(from));
    assert(m1.place(from, cur) == m2.place(from, cur));
    if o >= m1.unit_end(from) {
        lemma_next_cell_later(m1, from, cur);
        lemma_reach_before_change(
            m1,
            m2,
            p,
            m1.unit_end(from),
            m1.advance(from, m1.place(from, cur)),
            o,
        );
    }
}

/// A change leaves the display in front of it as it is: where two mappings
/// agree in front of an offset, every offset in front of it has the same
/// cell in both. So the rows in front of the first row that an edit touches
/// need not be drawn again.
pub proof fn lemma_cells_before_change(m1: DisplayView, m2: DisplayView, p: int, o: int)
    requires
        agree_before(m1, m2, p),
        0 <= o < p,
    ensures
        m1.offset_to_display(o) == m2.offset_to_display(o),
{
    lemma_reach_before_change(m1, m2, p, 0, Cell { row: 0, col: 0 }, o);
}


impl DisplayView {
    /// The cell reached behind the units in front of offset `p`, on the
    /// walk from the unit that starts at `from`, which follows cell `cur`.
    pub open spec fn cell_behind(self, from: int, cur: Cell, p: int) -> Cell
        decreases self.remaining(from),
    {
        if from >= p || from >= self.text.len() {
            cur
        } else {
            self.cell_behind(self.unit_end(from), self.advance(from, self.place(from, cur)), p)
        }
    }

    /// Between `from` and `to` no fold starts and no line ends.
    pub open spec fn plain_between(self, from: int, to: int) -> bool {
        forall|q: int|
            from <= q < to ==> !(#[trigger] fold_starts(self.folds, q)) && self.text[q] != '\n'
    }
}

/// The walk to an offset passes every offset in front of it that no fold
/// hides, and goes on from there.
pub proof fn lemma_reach_through(m: DisplayView, from: int, cur: Cell, p: int, o: int)
    requires
        m.wf(),
        0 <= from <= p <= o,
        p <= m.text.len(),
        !inside_fold(m.folds, from),
        !inside_fold(m.folds, p),
    ensures
        m.reach(from, cur, o) == m.reach(p, m.cell_behind(from, cur, p), o),
    decreases m.remaining(from),
{
    if from < p {
        lemma_unit_end_outside(m, from);
        let next = m.unit_end(from);
        if next > p {
            assert(inside_fold(m.folds, p));
        }
        lemma_reach_through(m, next, m.advance(from, m.place(from, cur)), p, o);
    }
}

/// Without wrapping, a stretch of text without folds and line ends takes
/// one column for each character.
pub proof fn lemma_plain_run(m: DisplayView, from: int, cur: Cell, o: int)
    requires
        m.wrap is None,
        0 <= from <= o <= m.text.len(),
        m.plain_between(from, o),
    ensures
        m.reach(from, cur, o) == (Cell { row: cur.row, col: cur.col + (o - from) }),
    decreases o - from,
{
    if from < o {
        assert(!fold_starts(m.folds, from) && m.text[from] != '\n');
        lemma_plain_run(m, from + 1, Cell { row: cur.row, col: cur.col + 1 }, o);
    }
}

/// A fold takes one column. Without wrapping, an offset behind a fold, with
/// no further fold and no line end between the fold and the offset, stands
/// in the row of the fold, as many columns behind the fold's column as it
/// is characters behind the fold's end, and one more for the fold.
pub proof fn lemma_column_behind_fold(m: DisplayView, i: int, o: int)
    requires
        m.wf(),
        m.wrap is None,
        0 <= i < m.folds.len(),
        m.folds[i].end <= o <= m.text.len(),
        m.plain_between(m.folds[i].end as int, o),
    ensures
        m.offset_to_display(o).row == m.offset_to_display(m.folds[i].start as int).row,
        m.offset_to_display(o).col == (o - m.folds[i].end) + m.offset_to_display(
            m.folds[i].start as int,
        ).col + 1,
{
    let f = m.folds[i];
    let start = f.start as int;
    let origin = Cell { row: 0, col: 0 };
    assert(f.start < f.end <= m.text.len());
    assert(!inside_fold(m.folds, 0));
    assert(!inside_fold(m.folds, start)) by {
        if inside_fold(m.folds, start) {
            let j = choose|j: int|
                0 <= j < m.folds.len() && (#[trigger] m.folds[j]).start < start < m.folds[j].end;
            if j < i {
                assert(m.folds[j].end <= m.folds[i].start);
            } else if i < j {
                assert(m.folds[i].end <= m.folds[j].start);
            }
        }
    }
    let behind = m.cell_behind(0, origin, start);
    lemma_reach_through(m, 0, origin, start, o);
    lemma_reach_through(m, 0, origin, start, start);
    assert(fold_starts(m.folds, start));
    lemma_fold_unique(m, i);
    assert(m.unit_end(start) == f.end);
    assert(m.place(start, behind) == behind);
    assert(m.reach(start, behind, start) == behind);
    assert(m.advance(start, behind) == (Cell { row: behind.row, col: behind.col + 1 }));
    assert(m.reach(start, behind, o) == m.reach(f.end as int, m.advance(start, behind), o));
    lemma_plain_run(m, f.end as int, m.advance(start, behind), o);
}

/// Only one fold starts where a fold starts.
pub proof fn lemma_fold_unique(m: DisplayView, i: int)
    requires
        m.wf(),
        0 <= i < m.folds.len(),
    ensures
        fold_from(m.folds, m.folds[i].start as int) == m.folds[i],
{
    let p = m.folds[i].start as int;
    let j = choose|j: int| 0 <= j < m.folds.len() && (#[trigger] m.folds[j]).start == p;
    assert(m.folds[i].start < m.folds[i].end);
    assert(m.folds[j].start < m.folds[j].end);
    if j < i {
        assert(m.folds[j].end <= m.folds[i].start);
    } else if i < j {
        assert(m.folds[i].end <= m.folds[j].start);
    }
}

} // verus!
