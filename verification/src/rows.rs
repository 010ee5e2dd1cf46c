//! A double-ended enumeration of a rectangle's rows.

use vstd::prelude::*;

use crate::rect::sat_sub;
use crate::rect::Rect;

verus! {

/// The unit-height row of `rect` whose y coordinate is `k`.
pub open spec fn row_at(rect: Rect, k: int) -> Rect {
    Rect { x: rect.x, y: k as u16, width: rect.width, height: 1 }
}

/// An iterator over the rows of a [`Rect`], from the top, the bottom, or both
/// ends at once.
///
/// The half-open interval `[current_row_fwd, current_row_back)` along the y
/// axis holds exactly the rows not yet yielded; the two cursors never cross.
pub struct Rows {
    /// The rectangle whose rows are enumerated.
    pub rect: Rect,
    /// The y coordinate of the next row when iterating forwards.
    pub current_row_fwd: u16,
    /// One past the y coordinate of the next row when iterating backwards.
    pub current_row_back: u16,
}

impl Rows {
    /// The cursors sit between the rectangle's top and bottom edges and have
    /// not crossed.
    pub open spec fn wf(self) -> bool {
        self.rect.y <= self.current_row_fwd <= self.current_row_back
            <= self.rect.spec_bottom()
    }

    /// How many rows are still to be yielded.
    pub open spec fn spec_remaining(self) -> int {
        self.current_row_back - self.current_row_fwd
    }

    /// The state after one pull: the forward cursor moves up, the backward
    /// cursor moves down, and an exhausted iterator stays put.
    pub open spec fn pulled(self, from_front: bool) -> Rows {
        if self.spec_remaining() <= 0 {
            self
        } else if from_front {
            Rows { current_row_fwd: (self.current_row_fwd + 1) as u16, ..self }
        } else {
            Rows { current_row_back: (self.current_row_back - 1) as u16, ..self }
        }
    }

    /// The row yielded by one pull, if any.
    pub open spec fn pulled_item(self, from_front: bool) -> Option<Rect> {
        if self.spec_remaining() <= 0 {
            None
        } else if from_front {
            Some(row_at(self.rect, self.current_row_fwd as int))
        } else {
            Some(row_at(self.rect, self.current_row_back - 1))
        }
    }

    /// The remaining count that `size_hint` reports: the height, less the rows
    /// already taken from the top, less the rows already taken from the
    /// bottom, each difference saturating at zero.
    pub open spec fn spec_size_hint(self) -> int {
        sat_sub(
            sat_sub(
                self.rect.height as int,
                sat_sub(self.current_row_fwd as int, self.rect.y as int),
            ),
            sat_sub(self.rect.spec_bottom(), self.current_row_back as int),
        )
    }

    /// The state a fresh iterator over `rect` starts in.
    pub open spec fn start(rect: Rect) -> Rows {
        Rows {
            rect,
            current_row_fwd: rect.y,
            current_row_back: rect.spec_bottom() as u16,
        }
    }

    /// Creates a new `Rows` iterator over the whole rectangle.
    pub fn new(rect: Rect) -> (rows: Rows)
        ensures
            rows == Rows::start(rect),
            rows.current_row_fwd == rect.y,
            rows.current_row_back == rect.spec_bottom(),
            rows.wf(),
            rows.spec_remaining() == rect.spec_bottom() - rect.y,
    {
        Rows { rect, current_row_fwd: rect.y, current_row_back: rect.bottom() }
    }

    /// Yields the next row from the top, or `None` once the cursors have met.
    pub fn next(&mut self) -> (item: Option<Rect>)
        requires
            old(self).wf(),
        ensures
            final(self).wf(),
            *final(self) == old(self).pulled(true),
            item == old(self).pulled_item(true),
    {
        if self.current_row_fwd >= self.current_row_back {
            return None;
        }
        let row = Rect::new(self.rect.x, self.current_row_fwd, self.rect.width, 1);
        self.current_row_fwd += 1;
        Some(row)
    }

    /// Yields the next row from the bottom, or `None` once the cursors have
    /// met.
    pub fn next_back(&mut self) -> (item: Option<Rect>)
        requires
            old(self).wf(),
        ensures
            final(self).wf(),
            *final(self) == old(self).pulled(false),
            item == old(self).pulled_item(false),
    {
        if self.current_row_back <= self.current_row_fwd {
            return None;
        }
        self.current_row_back -= 1;
        let row = Rect::new(self.rect.x, self.current_row_back, self.rect.width, 1);
        Some(row)
    }

    /// Reports how many rows are still to be yielded, in constant time.
    ///
    /// The count is exact whenever the rectangle's bottom edge does not
    /// saturate; see [`lemma_rows_remaining_accuracy`].
    pub fn size_hint(&self) -> (hint: (usize, Option<usize>))
        ensures
            hint.0 == self.spec_size_hint(),
            hint.1 is None,
    {
        let remaining_count = self
            .rect
            .height
            .saturating_sub(self.current_row_fwd.saturating_sub(self.rect.y))
            .saturating_sub(self.rect.bottom().saturating_sub(self.current_row_back));
        (remaining_count as usize, None)
    }
}

/// The iterator state after a sequence of pulls, `true` standing for a pull
/// from the front and `false` for one from the back.
pub open spec fn run_state(s: Rows, ops: Seq<bool>) -> Rows
    decreases ops.len(),
{
    if ops.len() == 0 {
        s
    } else {
        run_state(s.pulled(ops[0]), ops.skip(1))
    }
}

/// The rows yielded, in order, by a sequence of pulls.
pub open spec fn run_yields(s: Rows, ops: Seq<bool>) -> Seq<Rect>
    decreases ops.len(),
{
    if ops.len() == 0 {
        Seq::empty()
    } else {
        match s.pulled_item(ops[0]) {
            Some(row) => seq![row] + run_yields(s.pulled(ops[0]), ops.skip(1)),
            None => run_yields(s.pulled(ops[0]), ops.skip(1)),
        }
    }
}

/// Whether `row` is one of the rows that pulls leading from state `s` to
/// state `t` have taken: a row of the interval of `s` no longer in the
/// interval of `t`.
pub open spec fn yield_from(s: Rows, t: Rows, row: Rect) -> bool {
    exists|k: int|
        {
            &&& #[trigger] row_at(s.rect, k) == row
            &&& (s.current_row_fwd <= k < t.current_row_fwd || t.current_row_back <= k
                < s.current_row_back)
        }
}

proof fn lemma_prepend_contains(first: Rect, rest: Seq<Rect>, v: Rect)
    requires
        rest.contains(v),
    ensures
        (seq![first] + rest).contains(v),
{
    let i = choose|i: int| 0 <= i < rest.len() && rest[i] == v;
    assert((seq![first] + rest)[i + 1] == v);
}

/// Any interleaving of forward and backward pulls takes one row per pull
/// until the cursors meet, takes each row at most once, and takes only rows
/// of the not-yet-yielded interval.
pub proof fn lemma_rows_run(s: Rows, ops: Seq<bool>)
    requires
        s.wf(),
    ensures
        ({
            let t = run_state(s, ops);
            let ys = run_yields(s, ops);
            &&& t.wf()
            &&& t.rect == s.rect
            &&& s.current_row_fwd <= t.current_row_fwd
            &&& t.current_row_back <= s.current_row_back
            &&& ys.len() == (t.current_row_fwd - s.current_row_fwd) + (s.current_row_back
                - t.current_row_back)
            &&& ys.len() == vstd::math::min(ops.len() as int, s.spec_remaining())
            &&& forall|i: int| 0 <= i < ys.len() ==> yield_from(s, t, #[trigger] ys[i])
            &&& forall|k: int|
                s.current_row_fwd <= k < t.current_row_fwd ==> ys.contains(
                    #[trigger] row_at(s.rect, k),
                )
            &&& forall|k: int|
                t.current_row_back <= k < s.current_row_back ==> ys.contains(
                    #[trigger] row_at(s.rect, k),
                )
            &&& forall|i: int, j: int| 0 <= i < j < ys.len() ==> ys[i] != ys[j]
        }),
    decreases ops.len(),
{
    let t = run_state(s, ops);
    let ys = run_yields(s, ops);
    if ops.len() == 0 {
    } else {
        let s1 = s.pulled(ops[0]);
        let rest = run_yields(s1, ops.skip(1));
        lemma_rows_run(s1, ops.skip(1));
        if s.spec_remaining() <= 0 {
            assert(s1 == s);
            assert(ys == rest);
        } else {
            let k0: int = if ops[0] {
                s.current_row_fwd as int
            } else {
                s.current_row_back - 1
            };
            let row0 = row_at(s.rect, k0);
            assert(ys == seq![row0] + rest);
            assert(ys[0] == row0);
            assert forall|i: int| 1 <= i < ys.len() implies ys[i] == rest[i - 1] by {}
            // Every row the pull after this one can take lies strictly on the
            // far side of `k0`.
            assert forall|i: int| 0 <= i < ys.len() implies yield_from(s, t, #[trigger] ys[i]) by {
                if i == 0 {
                    assert(row_at(s.rect, k0) == ys[0]);
                    if ops[0] {
                        assert(s.current_row_fwd <= k0 < t.current_row_fwd);
                    } else {
                        assert(t.current_row_back <= k0 < s.current_row_back);
                    }
                } else {
                    let v = rest[i - 1];
                    assert(yield_from(s1, t, v));
                    let k = choose|k: int|
                        {
                            &&& #[trigger] row_at(s1.rect, k) == v
                            &&& (s1.current_row_fwd <= k < t.current_row_fwd
                                || t.current_row_back <= k < s1.current_row_back)
                        };
                    assert(row_at(s.rect, k) == v);
                    assert(s.current_row_fwd <= k < t.current_row_fwd || t.current_row_back <= k
                        < s.current_row_back);
                }
            }
            assert forall|k: int|
                s.current_row_fwd <= k < t.current_row_fwd implies ys.contains(
                #[trigger] row_at(s.rect, k),
            ) by {
                if ops[0] && k == k0 {
                    assert(ys[0] == row_at(s.rect, k));
                } else {
                    assert(rest.contains(row_at(s.rect, k)));
                    lemma_prepend_contains(row0, rest, row_at(s.rect, k));
                }
            }
            assert forall|k: int|
                t.current_row_back <= k < s.current_row_back implies ys.contains(
                #[trigger] row_at(s.rect, k),
            ) by {
                if !ops[0] && k == k0 {
                    assert(ys[0] == row_at(s.rect, k));
                } else {
                    assert(rest.contains(row_at(s.rect, k)));
                    lemma_prepend_contains(row0, rest, row_at(s.rect, k));
                }
            }
            assert forall|i: int, j: int| 0 <= i < j < ys.len() implies ys[i] != ys[j] by {
                if i == 0 {
                    let v = rest[j - 1];
                    assert(yield_from(s1, t, v));
                    let k = choose|k: int|
                        {
                            &&& #[trigger] row_at(s1.rect, k) == v
                            &&& (s1.current_row_fwd <= k < t.current_row_fwd
                                || t.current_row_back <= k < s1.current_row_back)
                        };
                    assert(k != k0);
                    assert(0 <= k0 <= u16::MAX && 0 <= k <= u16::MAX);
                    assert(row_at(s.rect, k).y == k as u16);
                    assert(row_at(s.rect, k0).y == k0 as u16);
                } else {
                    assert(rest[i - 1] != rest[j - 1]);
                }
            }
        }
    }
}

proof fn lemma_rows_forward_order(s: Rows, ops: Seq<bool>)
    requires
        s.wf(),
        forall|i: int| 0 <= i < ops.len() ==> ops[i],
    ensures
        ({
            let t = run_state(s, ops);
            let ys = run_yields(s, ops);
            let taken = vstd::math::min(ops.len() as int, s.spec_remaining());
            &&& t.rect == s.rect
            &&& t.current_row_fwd == s.current_row_fwd + taken
            &&& t.current_row_back == s.current_row_back
            &&& ys =~= Seq::new(taken as nat, |i: int| row_at(s.rect, s.current_row_fwd + i))
        }),
    decreases ops.len(),
{
    if ops.len() == 0 {
    } else {
        let s1 = s.pulled(ops[0]);
        lemma_rows_forward_order(s1, ops.skip(1));
    }
}

/// Partition: pulled forward `height` times, a fresh row iterator over a
/// region whose bottom edge does not saturate yields `height` distinct
/// unit-height rows, in order from the top, whose union by coordinates is
/// exactly the region; every further pull yields nothing.
pub proof fn lemma_rows_partition(rect: Rect, ops: Seq<bool>)
    requires
        rect.y + rect.height <= u16::MAX,
        ops.len() >= rect.height,
        forall|i: int| 0 <= i < ops.len() ==> ops[i],
    ensures
        ({
            let ys = run_yields(Rows::start(rect), ops);
            &&& ys.len() == rect.height
            &&& forall|i: int|
                0 <= i < rect.height ==> #[trigger] ys[i] == row_at(rect, rect.y + i)
            &&& forall|i: int, j: int| 0 <= i < j < ys.len() ==> ys[i] != ys[j]
            &&& forall|px: int, py: int|
                #[trigger] rect.spec_contains(px, py) <==> exists|i: int|
                    0 <= i < ys.len() && (#[trigger] ys[i]).spec_contains(px, py)
        }),
{
    let s = Rows::start(rect);
    let ys = run_yields(s, ops);
    lemma_rows_forward_order(s, ops);
    lemma_rows_run(s, ops);
    assert forall|px: int, py: int| #[trigger]
        rect.spec_contains(px, py) implies exists|i: int|
        0 <= i < ys.len() && (#[trigger] ys[i]).spec_contains(px, py) by {
        let i = py - rect.y;
        assert(ys[i] == row_at(rect, py));
        assert(ys[i].spec_contains(px, py));
    }
    assert forall|px: int, py: int|
        (exists|i: int|
            0 <= i < ys.len() && (#[trigger] ys[i]).spec_contains(
                px,
                py,
            )) implies #[trigger] rect.spec_contains(px, py) by {
        let i = choose|i: int| 0 <= i < ys.len() && (#[trigger] ys[i]).spec_contains(px, py);
        assert(ys[i] == row_at(rect, rect.y + i));
    }
}

/// Meet in the middle: under any interleaving of forward and backward pulls,
/// a fresh row iterator over a region whose bottom edge does not saturate
/// yields one row per pull until exactly `height` rows are out, never the
/// same row twice, each a row of the region; enough pulls from any mix of
/// ends produce every row.
pub proof fn lemma_rows_meet_in_the_middle(rect: Rect, ops: Seq<bool>)
    requires
        rect.y + rect.height <= u16::MAX,
    ensures
        ({
            let ys = run_yields(Rows::start(rect), ops);
            &&& ys.len() == vstd::math::min(ops.len() as int, rect.height as int)
            &&& forall|i: int, j: int| 0 <= i < j < ys.len() ==> ys[i] != ys[j]
            &&& forall|i: int|
                0 <= i < ys.len() ==> exists|k: int|
                    rect.y <= k < rect.spec_bottom() && #[trigger] ys[i] == row_at(rect, k)
            &&& ops.len() >= rect.height ==> forall|k: int|
                rect.y <= k < rect.spec_bottom() ==> ys.contains(#[trigger] row_at(rect, k))
        }),
{
    let s = Rows::start(rect);
    let t = run_state(s, ops);
    let ys = run_yields(s, ops);
    lemma_rows_run(s, ops);
    assert forall|i: int|
        0 <= i < ys.len() implies exists|k: int|
        rect.y <= k < rect.spec_bottom() && #[trigger] ys[i] == row_at(rect, k) by {
        assert(yield_from(s, t, ys[i]));
        let k = choose|k: int|
            {
                &&& #[trigger] row_at(s.rect, k) == ys[i]
                &&& (s.current_row_fwd <= k < t.current_row_fwd || t.current_row_back <= k
                    < s.current_row_back)
            };
        assert(rect.y <= k < rect.spec_bottom() && ys[i] == row_at(rect, k));
    }
    if ops.len() >= rect.height {
        assert(t.current_row_fwd == t.current_row_back);
    }
}

/// Remaining-count accuracy: for an iterator over a region whose bottom edge
/// does not saturate, the count that `size_hint` reports equals the number
/// of rows that a full drain, from either or both ends, still yields.
pub proof fn lemma_rows_size_hint_drain(s: Rows, ops: Seq<bool>)
    requires
        s.wf(),
        s.rect.y + s.rect.height <= u16::MAX,
        ops.len() >= s.spec_remaining(),
    ensures
        s.spec_size_hint() == run_yields(s, ops).len(),
{
    lemma_rows_run(s, ops);
    lemma_rows_remaining_accuracy(s);
}

/// Wherever the cursors have not crossed and the bottom edge does not
/// saturate, the reported count equals the width of the not-yet-yielded
/// interval.
pub proof fn lemma_rows_remaining_accuracy(rows: Rows)
    requires
        rows.wf(),
        rows.rect.y + rows.rect.height <= u16::MAX,
    ensures
        rows.spec_size_hint() == rows.spec_remaining(),
{
}

} // verus!
