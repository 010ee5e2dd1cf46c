use rect_iter::Columns;
use rect_iter::Position;
use rect_iter::Positions;
use rect_iter::Rect;
use rect_iter::Rows;

/// Forward row pulls partition the region: `height` distinct unit-height
/// rows that stack to the region, then nothing.
#[test]
fn rows_partition_offset_region() {
    let rect = Rect::new(3, 10, 4, 3);
    let mut rows = Rows::new(rect);
    for i in 0..3u16 {
        assert_eq!(rows.next(), Some(Rect::new(3, 10 + i, 4, 1)));
    }
    assert_eq!(rows.next(), None);
    assert_eq!(rows.next_back(), None);
}

/// Forward column pulls partition the region: `width` distinct unit-width
/// columns that line up to the region, then nothing.
#[test]
fn columns_partition_offset_region() {
    let rect = Rect::new(7, 2, 3, 5);
    let mut columns = Columns::new(rect);
    for i in 0..3u16 {
        assert_eq!(columns.next(), Some(Rect::new(7 + i, 2, 1, 5)));
    }
    assert_eq!(columns.next(), None);
    assert_eq!(columns.next_back(), None);
}

/// One forward pull, one backward pull, one forward pull on a three-row
/// region: top row, bottom row, middle row, then exhausted from both ends.
#[test]
fn rows_forward_backward_forward() {
    let rect = Rect::new(0, 0, 2, 3);
    let mut rows = Rows::new(rect);
    assert_eq!(rows.next(), Some(Rect::new(0, 0, 2, 1)));
    assert_eq!(rows.next_back(), Some(Rect::new(0, 2, 2, 1)));
    assert_eq!(rows.next(), Some(Rect::new(0, 1, 2, 1)));
    assert_eq!(rows.next(), None);
    assert_eq!(rows.next_back(), None);
}

/// After any mix of pulls, the reported remaining count matches what a full
/// drain still yields.
#[test]
fn rows_size_hint_matches_drain() {
    let rect = Rect::new(1, 2, 3, 5);
    let mut rows = Rows::new(rect);
    rows.next();
    rows.next_back();
    rows.next();
    let reported = rows.size_hint().0;
    let mut drained: usize = 0;
    while rows.next().is_some() {
        drained += 1;
    }
    assert_eq!(reported, 2);
    assert_eq!(drained, reported);
}

/// After any mix of pulls, the reported remaining count matches what a full
/// backward drain still yields.
#[test]
fn columns_size_hint_matches_drain() {
    let rect = Rect::new(4, 0, 6, 2);
    let mut columns = Columns::new(rect);
    columns.next_back();
    columns.next();
    let reported = columns.size_hint().0;
    let mut drained: usize = 0;
    while columns.next_back().is_some() {
        drained += 1;
    }
    assert_eq!(reported, 4);
    assert_eq!(drained, reported);
}

/// Zero-height and zero-width regions yield nothing and report zero from the
/// first query on.
#[test]
fn empty_regions_yield_nothing() {
    let flat = Rect::new(5, 5, 4, 0);
    let mut rows = Rows::new(flat);
    assert_eq!(rows.size_hint().0, 0);
    assert_eq!(rows.next(), None);
    assert_eq!(rows.next_back(), None);

    let thin = Rect::new(5, 5, 0, 4);
    let mut columns = Columns::new(thin);
    assert_eq!(columns.size_hint().0, 0);
    assert_eq!(columns.next(), None);
    assert_eq!(columns.next_back(), None);

    let mut positions = Positions::new(thin);
    assert_eq!(positions.size_hint().0, 0);
    assert_eq!(positions.next(), None);
    let mut positions = Positions::new(flat);
    assert_eq!(positions.size_hint().0, 0);
    assert_eq!(positions.next(), None);
}

/// A region whose bottom edge is the largest representable coordinate
/// iterates to the very last row without wrapping around.
#[test]
fn rows_max() {
    let rect = Rect::new(0, 0, 1, u16::MAX);
    let mut rows = Rows::new(rect);
    for _ in 0..usize::from(u16::MAX - 1) {
        rows.next();
    }
    assert_eq!(rows.next(), Some(Rect::new(0, u16::MAX - 1, 1, 1)));
    assert_eq!(rows.next(), None);
    assert_eq!(rows.size_hint().0, 0);
}

/// The position iterator walks an offset region exactly as the nested loop
/// over rows and then cells does, and counts the remainder accurately at
/// every step.
#[test]
fn positions_row_major_offset_region() {
    let rect = Rect::new(2, 7, 3, 2);
    let mut positions = Positions::new(rect);
    let mut expected = Vec::new();
    for y in 7..9u16 {
        for x in 2..5u16 {
            expected.push(Position::new(x, y));
        }
    }
    for (seen, want) in expected.iter().enumerate() {
        assert_eq!(positions.size_hint().0, expected.len() - seen);
        assert_eq!(positions.next(), Some(*want));
    }
    assert_eq!(positions.size_hint().0, 0);
    assert_eq!(positions.next(), None);
    assert_eq!(positions.size_hint().0, 0);
}

/// The remaining-position count is exact even when it exceeds the largest
/// `u16`: the full grid reports its whole area and counts down from there.
#[test]
fn positions_size_hint_exceeds_u16() {
    let rect = Rect::new(0, 0, u16::MAX, u16::MAX);
    let mut positions = Positions::new(rect);
    let area = usize::from(u16::MAX) * usize::from(u16::MAX);
    assert_eq!(positions.size_hint().0, area);
    assert_eq!(positions.next(), Some(Position::new(0, 0)));
    assert_eq!(positions.size_hint().0, area - 1);
}

/// A region whose bottom edge saturates holds fewer cells than its stated
/// extents; the reported count matches what a full drain yields.
#[test]
fn positions_size_hint_saturated_bottom() {
    let rect = Rect::new(0, 1, 1, u16::MAX);
    let mut positions = Positions::new(rect);
    let reported = positions.size_hint().0;
    assert_eq!(reported, usize::from(u16::MAX) - 1);
    let mut drained: usize = 0;
    while positions.next().is_some() {
        drained += 1;
    }
    assert_eq!(drained, reported);
}

/// The row wraparound happens exactly once per row boundary, at the right
/// edge.
#[test]
fn positions_wraps_once_per_row() {
    let rect = Rect::new(0, 0, 2, 3);
    let mut positions = Positions::new(rect);
    let mut seen = Vec::new();
    while let Some(position) = positions.next() {
        seen.push((position.x, position.y));
    }
    assert_eq!(seen, vec![(0, 0), (1, 0), (0, 1), (1, 1), (0, 2), (1, 2)]);
}
