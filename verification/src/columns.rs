//! A double-ended enumeration of a rectangle's columns.

use vstd::prelude::*;

use crate::rect::sat_sub;
use crate::rect::Rect;

verus! {

/// The unit-width column of `rect` whose x coordinate is `k`.
pub open spec fn column_at(rect: Rect, k: int) -> Rect {
    Rect { x: k as u16, y: rect.y, width: 1, height: rect.height }
}

/// An iterator over the columns of a [`Rect`], from the left, the right, or
/// both ends at once.
///
/// The half-open interval `[current_column_fwd, current_column_back)` along
/// the x axis holds exactly the columns not yet yielded; the two cursors
/// never cross.
pub struct Columns {
    /// The rectangle whose columns are enumerated.
    pub rect: Rect,
    /// The x coordinate of the next column when iterating forwards.
    pub current_column_fwd: u16,
    /// One past the x coordinate of the next column when iterating backwards.
    pub current_column_back: u16,
}

impl Columns {
    /// The cursors sit between the rectangle's left and right edges and have
    /// not crossed.
    pub open spec fn wf(self) -> bool {
        self.rect.x <= self.current_column_fwd <= self.current_column_back
            <= self.rect.spec_right()
    }

    /// How many columns are still to be yielded.
    pub open spec fn spec_remaining(self) -> int {
        self.current_column_back - self.current_column_fwd
    }

    /// The state after one pull: the forward cursor moves right, the backward
    /// cursor moves left, and an exhausted iterator stays put.
    pub open spec fn pulled(self, from_front: bool) -> Columns {
        if self.spec_remaining() <= 0 {
            self
        } else if from_front {
            Columns { current_column_fwd: (self.current_column_fwd + 1) as u16, ..self }
        } else {
            Columns { current_column_back: (self.current_column_back - 1) as u16, ..self }
        }
    }

    /// The column yielded by one pull, if any.
    pub open spec fn pulled_item(self, from_front: bool) -> Option<Rect> {
        if self.spec_remaining() <= 0 {
            None
        } else if from_front {
            Some(column_at(self.rect, self.current_column_fwd as int))
        } else {
            Some(column_at(self.rect, self.current_column_back - 1))
        }
    }

    /// The remaining count that `size_hint` reports: the width, less the
    /// columns already taken from the left, less the columns already taken
    /// from the right, each difference saturating at zero.
    pub open spec fn spec_size_hint(self) -> int {
        sat_sub(
            sat_sub(
                self.rect.width as int,
                sat_sub(self.current_column_fwd as int, self.rect.x as int),
            ),
            sat_sub(self.rect.spec_right(), self.current_column_back as int),
        )
    }

    /// The state a fresh iterator over `rect` starts in.
    pub open spec fn start(rect: Rect) -> Columns {
        Columns {
            rect,
            current_column_fwd: rect.x,
            current_column_back: rect.spec_right() as u16,
        }
    }

    /// Creates a new `Columns` iterator over the whole rectangle.
    pub fn new(rect: Rect) -> (columns: Columns)
        ensures
            columns == Columns::start(rect),
            columns.current_column_fwd == rect.x,
            columns.current_column_back == rect.spec_right(),
            columns.wf(),
            columns.spec_remaining() == rect.spec_right() - rect.x,
    {
        Columns { rect, current_column_fwd: rect.x, current_column_back: rect.right() }
    }

    /// Yields the next column from the left, or `None` once the cursors have
    /// met.
    pub fn next(&mut self) -> (item: Option<Rect>)
        requires
            old(self).wf(),
        ensures
            final(self).wf(),
            *final(self) == old(self).pulled(true),
            item == old(self).pulled_item(true),
    {
        if self.current_column_fwd >= self.current_column_back {
            return None;
        }
        let column = Rect::new(self.current_column_fwd, self.rect.y, 1, self.rect.height);
        self.current_column_fwd += 1;
        Some(column)
    }

    /// Yields the next column from the right, or `None` once the cursors
    /// have met.
    pub fn next_back(&mut self) -> (item: Option<Rect>)
        requires
            old(self).wf(),
        ensures
            final(self).wf(),
            *final(self) == old(self).pulled(false),
            item == old(self).pulled_item(false),
    {
        if self.current_column_back <= self.current_column_fwd {
            return None;
        }
        self.current_column_back -= 1;
        let column = Rect::new(self.current_column_back, self.rect.y, 1, self.rect.height);
        Some(column)
    }

    /// Reports how many columns are still to be yielded, in constant time.
    ///
    /// The count is exact whenever the rectangle's right edge does not
    /// saturate; see [`lemma_columns_remaining_accuracy`].
    pub fn size_hint(&self) -> (hint: (usize, Option<usize>))
        ensures
            hint.0 == self.spec_size_hint(),
            hint.1 is None,
    {
        let remaining = self
            .rect
            .width
            .saturating_sub(self.current_column_fwd.saturating_sub(self.rect.x))
            .saturating_sub(self.rect.right().saturating_sub(self.current_column_back));
        (remaining as usize, None)
    }
}

/// The iterator state after a sequence of pulls, `true` standing for a pull
/// from the front and `false` for one from the back.
pub open spec fn run_state(s: Columns, ops: Seq<bool>) -> Columns
    decreases ops.len(),
{
    if ops.len() == 0 {
        s
    } else {
        run_state(s.pulled(ops[0]), ops.skip(1))
    }
}

/// The columns yielded, in order, by a sequence of pulls.
pub open spec fn run_yields(s: Columns, ops: Seq<bool>) -> Seq<Rect>
    decreases ops.len(),
{
    if ops.len() == 0 {
        Seq::empty()
    } else {
        match s.pulled_item(ops[0]) {
            Some(column) => seq![column] + run_yields(s.pulled(ops[0]), ops.skip(1)),
            None => run_yields(s.pulled(ops[0]), ops.skip(1)),
        }
    }
}

/// Whether `column` is one of the columns that pulls leading from state `s`
/// to state `t` have taken: a column of the interval of `s` no longer in the
/// interval of `t`.
pub open spec fn yield_from(s: Columns, t: Columns, column: Rect) -> bool {
    exists|k: int|
        {
            &&& #[trigger] column_at(s.rect, k) == column
            &&& (s.current_column_fwd <= k < t.current_column_fwd || t.current_column_back <= k
                < s.current_column_back)
        }
}

proof fn lemma_prepend_contains(first: Rect, rest: Seq<Rect>, v: Rect)
    requires
        rest.contains(v),
    ensures
        (seq![first] + rest).contains(v),
{
    let i = choose|i: int| 0 <= i < rest.len() && rest[i] == v;
    assert((seq![first] + rest)[i + 1] == v);
}

/// Any interleaving of forward and backward pulls takes one column per pull
/// until the cursors meet, takes each column at most once, and takes only
/// columns of the not-yet-yielded interval.
pub proof fn lemma_columns_run(s: Columns, ops: Seq<bool>)
    requires
        s.wf(),
    ensures
        ({
            let t = run_state(s, ops);
            let ys = run_yields(s, ops);
            &&& t.wf()
            &&& t.rect == s.rect
            &&& s.current_column_fwd <= t.current_column_fwd
            &&& t.current_column_back <= s.current_column_back
            &&& ys.len() == (t.current_column_fwd - s.current_column_fwd) + (s.current_column_back
                - t.current_column_back)
            &&& ys.len() == vstd::math::min(ops.len() as int, s.spec_remaining())
            &&& forall|i: int| 0 <= i < ys.len() ==> yield_from(s, t, #[trigger] ys[i])
            &&& forall|k: int|
                s.current_column_fwd <= k < t.current_column_fwd ==> ys.contains(
                    #[trigger] column_at(s.rect, k),
                )
            &&& forall|k: int|
                t.current_column_back <= k < s.current_column_back ==> ys.contains(
                    #[trigger] column_at(s.rect, k),
                )
            &&& forall|i: int, j: int| 0 <= i < j < ys.len() ==> ys[i] != ys[j]
        }),
    decreases ops.len(),
{
    let t = run_state(s, ops);
    let ys = run_yields(s, ops);
    if ops.len() == 0 {
    } else {
        let s1 = s.pulled(ops[0]);
        let rest = run_yields(s1, ops.skip(1));
        lemma_columns_run(s1, ops.skip(1));
        if s.spec_remaining() <= 0 {
            assert(s1 == s);
            assert(ys == rest);
        } else {
            let k0: int = if ops[0] {
                s.current_column_fwd as int
            } else {
                s.current_column_back - 1
            };
            let column0 = column_at(s.rect, k0);
            assert(ys == seq![column0] + rest);
            assert(ys[0] == column0);
            assert forall|i: int| 1 <= i < ys.len() implies ys[i] == rest[i - 1] by {}
            // Every column the pull after this one can take lies strictly on
            // the far side of `k0`.
            assert forall|i: int| 0 <= i < ys.len() implies yield_from(s, t, #[trigger] ys[i]) by {
                if i == 0 {
                    assert(column_at(s.rect, k0) == ys[0]);
                    if ops[0] {
                        assert(s.current_column_fwd <= k0 < t.current_column_fwd);
                    } else {
                        assert(t.current_column_back <= k0 < s.current_column_back);
                    }
                } else {
                    let v = rest[i - 1];
                    assert(yield_from(s1, t, v));
                    let k = choose|k: int|
                        {
                            &&& #[trigger] column_at(s1.rect, k) == v
                            &&& (s1.current_column_fwd <= k < t.current_column_fwd
                                || t.current_column_back <= k < s1.current_column_back)
                        };
                    assert(column_at(s.rect, k) == v);
                    assert(s.current_column_fwd <= k < t.current_column_fwd
                        || t.current_column_back <= k < s.current_column_back);
                }
            }
            assert forall|k: int|
                s.current_column_fwd <= k < t.current_column_fwd implies ys.contains(
                #[trigger] column_at(s.rect, k),
            ) by {
                if ops[0] && k == k0 {
                    assert(ys[0] == column_at(s.rect, k));
                } else {
                    assert(rest.contains(column_at(s.rect, k)));
                    lemma_prepend_contains(column0, rest, column_at(s.rect, k));
                }
            }
            assert forall|k: int|
                t.current_column_back <= k < s.current_column_back implies ys.contains(
                #[trigger] column_at(s.rect, k),
            ) by {
                if !ops[0] && k == k0 {
                    assert(ys[0] == column_at(s.rect, k));
                } else {
                    assert(rest.contains(column_at(s.rect, k)));
                    lemma_prepend_contains(column0, rest, column_at(s.rect, k));
                }
            }
            assert forall|i: int, j: int| 0 <= i < j < ys.len() implies ys[i] != ys[j] by {
                if i == 0 {
                    let v = rest[j - 1];
                    assert(yield_from(s1, t, v));
                    let k = choose|k: int|
                        {
                            &&& #[trigger] column_at(s1.rect, k) == v
                            &&& (s1.current_column_fwd <= k < t.current_column_fwd
                                || t.current_column_back <= k < s1.current_column_back)
                        };
                    assert(k != k0);
                    assert(0 <= k0 <= u16::MAX && 0 <= k <= u16::MAX);
                    assert(column_at(s.rect, k).x == k as u16);
                    assert(column_at(s.rect, k0).x == k0 as u16);
                } else {
                    assert(rest[i - 1] != rest[j - 1]);
                }
            }
        }
    }
}

proof fn lemma_columns_forward_order(s: Columns, ops: Seq<bool>)
    requires
        s.wf(),
        forall|i: int| 0 <= i < ops.len() ==> ops[i],
    ensures
        ({
            let t = run_state(s, ops);
            let ys = run_yields(s, ops);
            let taken = vstd::math::min(ops.len() as int, s.spec_remaining());
            &&& t.rect == s.rect
            &&& t.current_column_fwd == s.current_column_fwd + taken
            &&& t.current_column_back == s.current_column_back
            &&& ys =~= Seq::new(taken as nat, |i: int| column_at(s.rect, s.current_column_fwd + i))
        }),
    decreases ops.len(),
{
    if ops.len() == 0 {
    } else {
        let s1 = s.pulled(ops[0]);
        lemma_columns_forward_order(s1, ops.skip(1));
    }
}

/// Partition: pulled forward `width` times, a fresh column iterator over a
/// region whose right edge does not saturate yields `width` distinct
/// unit-width columns, in order from the left, whose union by coordinates is
/// exactly the region; every further pull yields nothing.
pub proof fn lemma_columns_partition(rect: Rect, ops: Seq<bool>)
    requires
        rect.x + rect.width <= u16::MAX,
        ops.len() >= rect.width,
        forall|i: int| 0 <= i < ops.len() ==> ops[i],
    ensures
        ({
            let ys = run_yields(Columns::start(rect), ops);
            &&& ys.len() == rect.width
            &&& forall|i: int|
                0 <= i < rect.width ==> #[trigger] ys[i] == column_at(rect, rect.x + i)
            &&& forall|i: int, j: int| 0 <= i < j < ys.len() ==> ys[i] != ys[j]
            &&& forall|px: int, py: int|
                #[trigger] rect.spec_contains(px, py) <==> exists|i: int|
                    0 <= i < ys.len() && (#[trigger] ys[i]).spec_contains(px, py)
        }),
{
    let s = Columns::start(rect);
    let ys = run_yields(s, ops);
    lemma_columns_forward_order(s, ops);
    lemma_columns_run(s, ops);
    assert forall|px: int, py: int| #[trigger]
        rect.spec_contains(px, py) implies exists|i: int|
        0 <= i < ys.len() && (#[trigger] ys[i]).spec_contains(px, py) by {
        let i = px - rect.x;
        assert(ys[i] == column_at(rect, px));
        assert(ys[i].spec_contains(px, py));
    }
    assert forall|px: int, py: int|
        (exists|i: int|
            0 <= i < ys.len() && (#[trigger] ys[i]).spec_contains(
                px,
                py,
            )) implies #[trigger] rect.spec_contains(px, py) by {
        let i = choose|i: int| 0 <= i < ys.len() && (#[trigger] ys[i]).spec_contains(px, py);
        assert(ys[i] == column_at(rect, rect.x + i));
    }
}

/// Meet in the middle: under any interleaving of forward and backward pulls,
/// a fresh column iterator over a region whose right edge does not saturate
/// yields one column per pull until exactly `width` columns are out, never
/// the same column twice, each a column of the region; enough pulls from any
/// mix of ends produce every column.
pub proof fn lemma_columns_meet_in_the_middle(rect: Rect, ops: Seq<bool>)
    requires
        rect.x + rect.width <= u16::MAX,
    ensures
        ({
            let ys = run_yields(Columns::start(rect), ops);
            &&& ys.len() == vstd::math::min(ops.len() as int, rect.width as int)
            &&& forall|i: int, j: int| 0 <= i < j < ys.len() ==> ys[i] != ys[j]
            &&& forall|i: int|
                0 <= i < ys.len() ==> exists|k: int|
                    rect.x <= k < rect.spec_right() && #[trigger] ys[i] == column_at(rect, k)
            &&& ops.len() >= rect.width ==> forall|k: int|
                rect.x <= k < rect.spec_right() ==> ys.contains(#[trigger] column_at(rect, k))
        }),
{
    let s = Columns::start(rect);
    let t = run_state(s, ops);
    let ys = run_yields(s, ops);
    lemma_columns_run(s, ops);
    assert forall|i: int|
        0 <= i < ys.len() implies exists|k: int|
        rect.x <= k < rect.spec_right() && #[trigger] ys[i] == column_at(rect, k) by {
        assert(yield_from(s, t, ys[i]));
        let k = choose|k: int|
            {
                &&& #[trigger] column_at(s.rect, k) == ys[i]
                &&& (s.current_column_fwd <= k < t.current_column_fwd || t.current_column_back <= k
                    < s.current_column_back)
            };
        assert(rect.x <= k < rect.spec_right() && ys[i] == column_at(rect, k));
    }
    if ops.len() >= rect.width {
        assert(t.current_column_fwd == t.current_column_back);
    }
}

/// Remaining-count accuracy: for an iterator over a region whose right edge
/// does not saturate, the count that `size_hint` reports equals the number
/// of columns that a full drain, from either or both ends, still yields.
pub proof fn lemma_columns_size_hint_drain(s: Columns, ops: Seq<bool>)
    requires
        s.wf(),
        s.rect.x + s.rect.width <= u16::MAX,
        ops.len() >= s.spec_remaining(),
    ensures
        s.spec_size_hint() == run_yields(s, ops).len(),
{
    lemma_columns_run(s, ops);
    lemma_columns_remaining_accuracy(s);
}

/// Wherever the cursors have not crossed and the right edge does not
/// saturate, the reported count equals the width of the not-yet-yielded
/// interval.
pub proof fn lemma_columns_remaining_accuracy(columns: Columns)
    requires
        columns.wf(),
        columns.rect.x + columns.rect.width <= u16::MAX,
    ensures
        columns.spec_size_hint() == columns.spec_remaining(),
{
}

} // verus!
