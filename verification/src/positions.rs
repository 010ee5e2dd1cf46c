//! A row-major enumeration of a rectangle's cell positions.

use vstd::prelude::*;

use crate::rect::sat_sub;
use crate::rect::Position;
use crate::rect::Rect;

verus! {

/// An iterator over every cell position inside a [`Rect`], in row-major
/// order: all positions of one row are yielded before the next row starts.
/// Forward-only.
pub struct Positions {
    /// The rectangle whose positions are enumerated.
    pub rect: Rect,
    /// The next position to yield, or `(rect.x, bottom)` once exhausted.
    pub current_position: Position,
}

impl Positions {
    /// The current position sits at the start of a row (possibly the
    /// exhausted row one past the bottom edge) or strictly inside a row.
    pub open spec fn wf(self) -> bool {
        &&& self.rect.y <= self.current_position.y <= self.rect.spec_bottom()
        &&& (self.current_position.x == self.rect.x || (self.rect.x <= self.current_position.x
            < self.rect.spec_right() && self.current_position.y < self.rect.spec_bottom()))
    }

    /// Whether another position is still to be yielded.
    pub open spec fn spec_has_next(self) -> bool {
        &&& self.current_position.y < self.rect.spec_bottom()
        &&& self.current_position.x < self.rect.spec_right()
    }

    /// How many positions are still to be yielded: the rows below the
    /// current position, each `right - x` cells wide, plus the rest of the
    /// current row.
    pub open spec fn spec_remaining(self) -> int {
        if self.spec_has_next() {
            (self.rect.spec_bottom() - self.current_position.y - 1) * (self.rect.spec_right()
                - self.rect.x) + (self.rect.spec_right() - self.current_position.x)
        } else {
            0
        }
    }

    /// The state after one yield: one cell to the right, or the start of the
    /// next row once the right edge is reached.
    pub open spec fn stepped(self) -> Positions {
        if self.current_position.x + 1 < self.rect.spec_right() {
            Positions {
                rect: self.rect,
                current_position: Position {
                    x: (self.current_position.x + 1) as u16,
                    y: self.current_position.y,
                },
            }
        } else {
            Positions {
                rect: self.rect,
                current_position: Position {
                    x: self.rect.x,
                    y: (self.current_position.y + 1) as u16,
                },
            }
        }
    }

    /// The remaining count that `size_hint` reports: the remaining rows
    /// counted against the saturated bottom edge and, if there are any, the
    /// rest of the current row counted against the saturated right edge,
    /// plus `width` cells for each full row below the current one.
    pub open spec fn spec_size_hint(self) -> int {
        let remaining_rows = sat_sub(self.rect.spec_bottom(), self.current_position.y as int);
        if remaining_rows == 0 {
            0
        } else {
            let remaining_cells = sat_sub(
                self.rect.spec_right(),
                self.current_position.x as int,
            );
            (remaining_rows - 1) * (self.rect.width as int) + remaining_cells
        }
    }

    /// The state a fresh iterator over `rect` starts in.
    pub open spec fn start(rect: Rect) -> Positions {
        Positions { rect, current_position: Position { x: rect.x, y: rect.y } }
    }

    /// Creates a new `Positions` iterator over the whole rectangle.
    pub fn new(rect: Rect) -> (positions: Positions)
        ensures
            positions == Positions::start(rect),
            positions.wf(),
    {
        Positions { rect, current_position: Position::new(rect.x, rect.y) }
    }

    /// Yields the next position in row-major order, or `None` once every
    /// cell of the rectangle is out.
    pub fn next(&mut self) -> (item: Option<Position>)
        requires
            old(self).wf(),
        ensures
            final(self).wf(),
            final(self).rect == old(self).rect,
            old(self).spec_has_next() ==> *final(self) == old(self).stepped() && item == Some(
                old(self).current_position,
            ),
            !old(self).spec_has_next() ==> *final(self) == *old(self) && item is None,
    {
        if self.current_position.y >= self.rect.bottom() || self.current_position.x
            >= self.rect.right() {
            return None;
        }
        let position = self.current_position;
        self.current_position.x += 1;
        if self.current_position.x >= self.rect.right() {
            self.current_position.x = self.rect.x;
            self.current_position.y += 1;
        }
        Some(position)
    }

    /// Reports how many positions are still to be yielded, in constant time.
    ///
    /// At every reachable state of a region whose right edge does not
    /// saturate, the count is exact, however large the region's area; see
    /// [`lemma_positions_remaining_accuracy`].
    pub fn size_hint(&self) -> (hint: (usize, Option<usize>))
        ensures
            hint.0 == self.spec_size_hint(),
            hint.1 is None,
            self.wf() && self.rect.x + self.rect.width <= u16::MAX ==> hint.0
                == self.spec_remaining(),
    {
        // Number of the remaining rows including the current row, counted
        // against the saturated bottom edge.
        let remaining_rows = self
            .rect
            .height
            .saturating_add(self.rect.y)
            .saturating_sub(self.current_position.y);
        // Number of cells remaining in the current row, counted against the
        // saturated right edge.
        let remaining_cells = if remaining_rows != 0 {
            self.rect.width.saturating_add(self.rect.x).saturating_sub(self.current_position.x)
        } else {
            return (0, None);
        };
        // The multiply and the final add run in usize, so a count larger
        // than a u16 is reported exactly; the current row is partial, so it
        // is left out of the full-row count.
        proof {
            assert((remaining_rows - 1) * (self.rect.width as int) <= 65534 * 65535)
                by (nonlinear_arith)
                requires
                    0 <= remaining_rows - 1 <= 65534,
                    0 <= self.rect.width <= 65535,
            ;
            if self.wf() && self.rect.x + self.rect.width <= u16::MAX {
                lemma_positions_remaining_accuracy(*self);
            }
        }
        let remaining_rows_cell_count = (remaining_rows as usize - 1) * (self.rect.width as usize);
        (remaining_cells as usize + remaining_rows_cell_count, None)
    }
}

/// The cell of `rect` in row `i` and column `j`, counted from the origin.
pub open spec fn cell_at(rect: Rect, i: int, j: int) -> Position {
    Position { x: (rect.x + j) as u16, y: (rect.y + i) as u16 }
}

/// The `k`-th cell of `rect` in row-major order.
pub open spec fn position_order(rect: Rect, k: int) -> Position {
    cell_at(rect, k / (rect.width as int), k % (rect.width as int))
}

impl Positions {
    /// How many positions have already been yielded, counted in row-major
    /// order from the origin.
    pub open spec fn spec_index(self) -> int {
        (self.current_position.y - self.rect.y) * (self.rect.spec_right() - self.rect.x) + (
        self.current_position.x - self.rect.x)
    }
}

/// The iterator state after `n` pulls.
pub open spec fn run_state(s: Positions, n: nat) -> Positions
    decreases n,
{
    if n == 0 {
        s
    } else if s.spec_has_next() {
        run_state(s.stepped(), (n - 1) as nat)
    } else {
        run_state(s, (n - 1) as nat)
    }
}

/// The positions yielded, in order, by `n` pulls.
pub open spec fn run_yields(s: Positions, n: nat) -> Seq<Position>
    decreases n,
{
    if n == 0 {
        Seq::empty()
    } else if s.spec_has_next() {
        seq![s.current_position] + run_yields(s.stepped(), (n - 1) as nat)
    } else {
        run_yields(s, (n - 1) as nat)
    }
}

proof fn lemma_positions_run(s: Positions, n: nat)
    requires
        s.wf(),
        s.rect.x + s.rect.width <= u16::MAX,
    ensures
        ({
            let ys = run_yields(s, n);
            &&& run_state(s, n).wf()
            &&& ys.len() == vstd::math::min(n as int, s.spec_remaining())
            &&& ys =~= Seq::new(ys.len(), |i: int| position_order(s.rect, s.spec_index() + i))
        }),
    decreases n,
{
    let ys = run_yields(s, n);
    let width = s.rect.width as int;
    let bottom = s.rect.spec_bottom();
    let right = s.rect.spec_right();
    let row_off = s.current_position.y - s.rect.y;
    let col_off = s.current_position.x - s.rect.x;
    if n == 0 {
    } else if s.spec_has_next() {
        let s1 = s.stepped();
        assert((bottom - s.current_position.y - 1) * width >= 0) by (nonlinear_arith)
            requires
                bottom - s.current_position.y - 1 >= 0,
                width >= 0,
        ;
        assert(s1.spec_index() == s.spec_index() + 1) by (nonlinear_arith)
            requires
                s1.spec_index() == (s1.current_position.y - s1.rect.y) * (s1.rect.spec_right()
                    - s1.rect.x) + (s1.current_position.x - s1.rect.x),
                s.spec_index() == row_off * (right - s.rect.x) + col_off,
                s1.rect == s.rect,
                s1.rect.spec_right() == right,
                if s.current_position.x + 1 < right {
                    s1.current_position.y - s1.rect.y == row_off && s1.current_position.x
                        - s1.rect.x == col_off + 1
                } else {
                    s1.current_position.y - s1.rect.y == row_off + 1 && s1.current_position.x
                        - s1.rect.x == 0 && col_off == right - s.rect.x - 1
                },
        ;
        assert(s1.spec_remaining() == s.spec_remaining() - 1) by (nonlinear_arith)
            requires
                s.spec_has_next(),
                s.spec_remaining() == (bottom - s.current_position.y - 1) * (right - s.rect.x) + (
                right - s.current_position.x),
                s1.rect == s.rect,
                s1.spec_remaining() == if s1.spec_has_next() {
                    (bottom - s1.current_position.y - 1) * (right - s.rect.x) + (right
                        - s1.current_position.x)
                } else {
                    0
                },
                s.rect.x <= s.current_position.x < right,
                s.rect.y <= s.current_position.y < bottom,
                if s.current_position.x + 1 < right {
                    s1.current_position.y == s.current_position.y && s1.current_position.x
                        == s.current_position.x + 1
                } else {
                    s1.current_position.y == s.current_position.y + 1 && s1.current_position.x
                        == s.rect.x
                },
                s1.spec_has_next() <==> (s1.current_position.y < bottom && s1.current_position.x
                    < right),
        ;
        lemma_positions_run(s1, (n - 1) as nat);
        let rest = run_yields(s1, (n - 1) as nat);
        // The current position is exactly the cell that `spec_index` names.
        vstd::arithmetic::div_mod::lemma_fundamental_div_mod_converse(
            s.spec_index(),
            right - s.rect.x,
            row_off,
            col_off,
        );
        assert(right - s.rect.x == width);
        assert(s.current_position == position_order(s.rect, s.spec_index()));
        assert forall|i: int| 0 <= i < ys.len() implies ys[i] == position_order(
            s.rect,
            s.spec_index() + i,
        ) by {
            if i > 0 {
                assert(ys[i] == rest[i - 1]);
                assert(rest[i - 1] == position_order(s.rect, s1.spec_index() + (i - 1)));
            }
        }
    } else {
        lemma_positions_run(s, (n - 1) as nat);
    }
}

/// Row-major completeness: over a region neither of whose edges saturates,
/// `n` pulls of a fresh position iterator yield the first
/// `min(n, width * height)` cells of the nested-loop enumeration: outer loop
/// over the rows from the top, inner loop over the cells from the left.
pub proof fn lemma_positions_row_major(rect: Rect, n: nat)
    requires
        rect.x + rect.width <= u16::MAX,
        rect.y + rect.height <= u16::MAX,
    ensures
        ({
            let ys = run_yields(Positions::start(rect), n);
            &&& ys.len() == vstd::math::min(n as int, rect.width * rect.height)
            &&& forall|i: int, j: int|
                0 <= i < rect.height && 0 <= j < rect.width && i * (rect.width as int) + j
                    < ys.len() ==> ys[i * (rect.width as int) + j] == #[trigger] cell_at(
                    rect,
                    i,
                    j,
                )
        }),
{
    let s = Positions::start(rect);
    let width = rect.width as int;
    let ys = run_yields(s, n);
    lemma_positions_run(s, n);
    assert(s.spec_index() == (rect.y - rect.y) * (rect.spec_right() - rect.x) + (rect.x - rect.x));
    assert((rect.y - rect.y) * (rect.spec_right() - rect.x) == 0) by (nonlinear_arith);
    assert(s.spec_index() == 0);
    assert(s.spec_remaining() == rect.width * rect.height) by (nonlinear_arith)
        requires
            s.spec_remaining() == if s.spec_has_next() {
                (rect.spec_bottom() - rect.y - 1) * (rect.spec_right() - rect.x) + (
                rect.spec_right() - rect.x)
            } else {
                0
            },
            s.spec_has_next() <==> (rect.y < rect.spec_bottom() && rect.x < rect.spec_right()),
            rect.spec_bottom() - rect.y == rect.height,
            rect.spec_right() - rect.x == rect.width,
    ;
    assert forall|i: int, j: int|
        0 <= i < rect.height && 0 <= j < rect.width && i * width + j < ys.len() implies ys[i
        * width + j] == #[trigger] cell_at(rect, i, j) by {
        let k = i * width + j;
        assert(0 <= k) by (nonlinear_arith)
            requires
                k == i * width + j,
                0 <= i,
                0 <= j,
                width > 0,
        ;
        assert(ys[k] == position_order(rect, s.spec_index() + k));
        vstd::arithmetic::div_mod::lemma_fundamental_div_mod_converse(k, width, i, j);
    }
}

/// Remaining-count accuracy: at every reachable state of a region whose
/// right edge does not saturate, the count that `size_hint` reports equals
/// the true number of positions still to be yielded, however large the
/// region's area; and for a region of positive width it reads zero exactly
/// when the cursor has reached the bottom edge.
pub proof fn lemma_positions_remaining_accuracy(positions: Positions)
    requires
        positions.wf(),
        positions.rect.x + positions.rect.width <= u16::MAX,
    ensures
        positions.spec_size_hint() == positions.spec_remaining(),
        positions.rect.width > 0 ==> (positions.spec_size_hint() == 0
            <==> positions.current_position.y == positions.rect.spec_bottom()),
{
    let rect = positions.rect;
    let cur = positions.current_position;
    let width = rect.width as int;
    let remaining_rows = rect.spec_bottom() - cur.y;
    if positions.spec_has_next() {
        assert((remaining_rows - 1) * width >= 0) by (nonlinear_arith)
            requires
                remaining_rows - 1 >= 0,
                width >= 0,
        ;
    } else if cur.y < rect.spec_bottom() {
        // The region is effectively empty: its width is zero and the cursor
        // has never left the origin column.
        assert(width == 0);
        assert((remaining_rows - 1) * width == 0) by (nonlinear_arith)
            requires
                width == 0,
        ;
    }
}

/// Remaining-count accuracy against a drain: the reported count equals the
/// number of positions that any `n` further pulls, `n` at least the count,
/// actually yield.
pub proof fn lemma_positions_size_hint_drain(s: Positions, n: nat)
    requires
        s.wf(),
        s.rect.x + s.rect.width <= u16::MAX,
        n >= s.spec_remaining(),
    ensures
        s.spec_size_hint() == run_yields(s, n).len(),
{
    lemma_positions_run(s, n);
    lemma_positions_remaining_accuracy(s);
}

} // verus!
