use rect_iter::Columns;
use rect_iter::Position;
use rect_iter::Positions;
use rect_iter::Rect;
use rect_iter::Rows;

#[test]
fn rows() {
    let rect = Rect::new(0, 0, 2, 3);
    let mut rows = Rows::new(rect);
    assert_eq!(rows.size_hint().0, 3);
    assert_eq!(rows.next(), Some(Rect::new(0, 0, 2, 1)));
    assert_eq!(rows.size_hint().0, 2);
    assert_eq!(rows.next(), Some(Rect::new(0, 1, 2, 1)));
    assert_eq!(rows.size_hint().0, 1);
    assert_eq!(rows.next(), Some(Rect::new(0, 2, 2, 1)));
    assert_eq!(rows.size_hint().0, 0);
    assert_eq!(rows.next(), None);
    assert_eq!(rows.size_hint().0, 0);
    assert_eq!(rows.next_back(), None);
    assert_eq!(rows.size_hint().0, 0);
}

#[test]
fn rows_back() {
    let rect = Rect::new(0, 0, 2, 3);
    let mut rows = Rows::new(rect);
    assert_eq!(rows.size_hint().0, 3);
    assert_eq!(rows.next_back(), Some(Rect::new(0, 2, 2, 1)));
    assert_eq!(rows.size_hint().0, 2);
    assert_eq!(rows.next_back(), Some(Rect::new(0, 1, 2, 1)));
    assert_eq!(rows.size_hint().0, 1);
    assert_eq!(rows.next_back(), Some(Rect::new(0, 0, 2, 1)));
    assert_eq!(rows.size_hint().0, 0);
    assert_eq!(rows.next_back(), None);
    assert_eq!(rows.size_hint().0, 0);
    assert_eq!(rows.next(), None);
    assert_eq!(rows.size_hint().0, 0);
}

#[test]
fn rows_meet_in_the_middle() {
    let rect = Rect::new(0, 0, 2, 4);
    let mut rows = Rows::new(rect);
    assert_eq!(rows.size_hint().0, 4);
    assert_eq!(rows.next(), Some(Rect::new(0, 0, 2, 1)));
    assert_eq!(rows.size_hint().0, 3);
    assert_eq!(rows.next_back(), Some(Rect::new(0, 3, 2, 1)));
    assert_eq!(rows.size_hint().0, 2);
    assert_eq!(rows.next(), Some(Rect::new(0, 1, 2, 1)));
    assert_eq!(rows.size_hint().0, 1);
    assert_eq!(rows.next_back(), Some(Rect::new(0, 2, 2, 1)));
    assert_eq!(rows.size_hint().0, 0);
    assert_eq!(rows.next(), None);
    assert_eq!(rows.size_hint().0, 0);
    assert_eq!(rows.next_back(), None);
    assert_eq!(rows.size_hint().0, 0);
}

#[test]
fn columns() {
    let rect = Rect::new(0, 0, 3, 2);
    let mut columns = Columns::new(rect);
    assert_eq!(columns.size_hint().0, 3);
    assert_eq!(columns.next(), Some(Rect::new(0, 0, 1, 2)));
    assert_eq!(columns.size_hint().0, 2);
    assert_eq!(columns.next(), Some(Rect::new(1, 0, 1, 2)));
    assert_eq!(columns.size_hint().0, 1);
    assert_eq!(columns.next(), Some(Rect::new(2, 0, 1, 2)));
    assert_eq!(columns.size_hint().0, 0);
    assert_eq!(columns.next(), None);
    assert_eq!(columns.size_hint().0, 0);
    assert_eq!(columns.next_back(), None);
    assert_eq!(columns.size_hint().0, 0);
}

#[test]
fn columns_back() {
    let rect = Rect::new(0, 0, 3, 2);
    let mut columns = Columns::new(rect);
    assert_eq!(columns.size_hint().0, 3);
    assert_eq!(columns.next_back(), Some(Rect::new(2, 0, 1, 2)));
    assert_eq!(columns.size_hint().0, 2);
    assert_eq!(columns.next_back(), Some(Rect::new(1, 0, 1, 2)));
    assert_eq!(columns.size_hint().0, 1);
    assert_eq!(columns.next_back(), Some(Rect::new(0, 0, 1, 2)));
    assert_eq!(columns.size_hint().0, 0);
    assert_eq!(columns.next_back(), None);
    assert_eq!(columns.size_hint().0, 0);
    assert_eq!(columns.next(), None);
    assert_eq!(columns.size_hint().0, 0);
}

#[test]
fn columns_meet_in_the_middle() {
    let rect = Rect::new(0, 0, 4, 2);
    let mut columns = Columns::new(rect);
    assert_eq!(columns.size_hint().0, 4);
    assert_eq!(columns.next(), Some(Rect::new(0, 0, 1, 2)));
    assert_eq!(columns.size_hint().0, 3);
    assert_eq!(columns.next_back(), Some(Rect::new(3, 0, 1, 2)));
    assert_eq!(columns.size_hint().0, 2);
    assert_eq!(columns.next(), Some(Rect::new(1, 0, 1, 2)));
    assert_eq!(columns.size_hint().0, 1);
    assert_eq!(columns.next_back(), Some(Rect::new(2, 0, 1, 2)));
    assert_eq!(columns.size_hint().0, 0);
    assert_eq!(columns.next(), None);
    assert_eq!(columns.size_hint().0, 0);
    assert_eq!(columns.next_back(), None);
    assert_eq!(columns.size_hint().0, 0);
}

/// A total of `65536` columns fit in the range `(0..=65535)`. Iterating
/// forward past the first `65534` columns, the next column is at `65534` and
/// the subsequent columns are `None`.
#[test]
fn columns_max() {
    let rect = Rect::new(0, 0, u16::MAX, 1);
    let mut columns = Columns::new(rect);
    for _ in 0..usize::from(u16::MAX - 1) {
        columns.next();
    }
    assert_eq!(columns.next(), Some(Rect::new(u16::MAX - 1, 0, 1, 1)));
    assert_eq!(columns.next(), None);
}

/// A total of `65536` columns fit in the range `(0..=65535)`. Iterating
/// backward past the last `65534` columns, the next column is at `0` and the
/// subsequent columns are `None`.
#[test]
fn columns_min() {
    let rect = Rect::new(0, 0, u16::MAX, 1);
    let mut columns = Columns::new(rect);
    for _ in 0..usize::from(u16::MAX - 1) {
        columns.next_back();
    }
    assert_eq!(columns.next_back(), Some(Rect::new(0, 0, 1, 1)));
    assert_eq!(columns.next_back(), None);
    assert_eq!(columns.next_back(), None);
}

#[test]
fn positions() {
    let rect = Rect::new(0, 0, 2, 2);
    let mut positions = Positions::new(rect);
    assert_eq!(positions.next(), Some(Position::new(0, 0)));
    assert_eq!(positions.next(), Some(Position::new(1, 0)));
    assert_eq!(positions.next(), Some(Position::new(0, 1)));
    assert_eq!(positions.next(), Some(Position::new(1, 1)));
    assert_eq!(positions.next(), None);
}
