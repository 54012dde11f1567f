use muse::geometry::{
    clamp_index, copy_btn_after, flashing, frac_col, frac_in_rect, hit, hscroll_left, hscroll_right, move_cursor,
    nav_step, next_streak, thumb_cols, tree_row_at, Rect,
};

fn rect(w: u16, h: u16) -> Rect {
    Rect { x: 4, y: 2, width: w, height: h }
}

fn frac(r: Rect, col: u16) -> f64 {
    let (n, d) = frac_col(r, col);
    n as f64 / d as f64
}

#[test]
fn frac_col_spans_full_range() {
    let r = rect(12, 3); // interior cols 5..=14
    assert_eq!(frac(r, 5), 0.0); // left edge
    assert_eq!(frac(r, 14), 1.0); // right edge reaches end-of-track
    assert!((frac(r, 9) - 4.0 / 9.0).abs() < 1e-9);
    // off-bar columns clamp, never exceed the bounds
    assert_eq!(frac(r, 0), 0.0);
    assert_eq!(frac(r, 200), 1.0);
}

#[test]
fn frac_in_rect_excludes_borders() {
    let r = rect(12, 5); // border rows y=2 and y=6; interior rows 3..=5
    assert!(frac_in_rect(r, 8, 2).is_none()); // top border / title row
    assert!(frac_in_rect(r, 8, 6).is_none()); // bottom border
    assert!(frac_in_rect(r, 4, 4).is_none()); // left border col
    assert!(frac_in_rect(r, 15, 4).is_none()); // right border col
    assert!(frac_in_rect(r, 8, 4).is_some()); // interior hit
}

#[test]
fn narrow_bar_is_zero() {
    assert_eq!(frac_col(rect(3, 3), 5), (0, 1));
    assert!(frac_in_rect(rect(3, 5), 5, 4).is_none());
}

#[test]
fn copy_button_after_title() {
    let panel = Rect { x: 10, y: 5, width: 40, height: 6 };
    // text starts at x + 2 + offset; the icon one space after the title.
    assert_eq!(copy_btn_after(panel, 2, 5, 0), Some(Rect { x: 18, y: 7, width: 1, height: 1 }));
    // a long title clamps to the last inner column.
    assert_eq!(copy_btn_after(panel, 1, 100, 3), Some(Rect { x: 48, y: 6, width: 1, height: 1 }));
    // too small panels have no button.
    assert_eq!(copy_btn_after(Rect { x: 0, y: 0, width: 5, height: 6 }, 1, 3, 0), None);
    assert_eq!(copy_btn_after(Rect { x: 0, y: 0, width: 20, height: 3 }, 2, 3, 0), None);
}

#[test]
fn thumbnail_width() {
    let panel = Rect { x: 0, y: 0, width: 40, height: 6 };
    assert_eq!(thumb_cols(panel, false), 0);
    // inner 36 x 4: min(8, 12) + 1
    assert_eq!(thumb_cols(panel, true), 9);
    // inner too narrow
    assert_eq!(thumb_cols(Rect { x: 0, y: 0, width: 15, height: 6 }, true), 0);
    // inner height 0
    assert_eq!(thumb_cols(Rect { x: 0, y: 0, width: 40, height: 2 }, true), 0);
}

#[test]
fn flash_window_wraps() {
    assert!(flashing(Some(100), 100));
    assert!(flashing(Some(100), 189));
    assert!(!flashing(Some(100), 190));
    assert!(!flashing(None, 5));
    // a frame counter that wrapped is still inside the window
    assert!(flashing(Some(u64::MAX - 4), 10));
    // a stamp in the future is far outside it
    assert!(!flashing(Some(50), 10));
}

#[test]
fn hit_testing() {
    let b = Rect { x: 3, y: 4, width: 2, height: 1 };
    assert!(hit(Some(b), 3, 4));
    assert!(hit(Some(b), 4, 4));
    assert!(!hit(Some(b), 5, 4));
    assert!(!hit(Some(b), 3, 5));
    assert!(!hit(None, 3, 4));
}

#[test]
fn tree_rows() {
    let r = Rect { x: 0, y: 1, width: 20, height: 10 };
    assert_eq!(tree_row_at(r, 5, 2, 0, 5), Some(0));
    assert_eq!(tree_row_at(r, 5, 4, 3, 10), Some(5));
    assert_eq!(tree_row_at(r, 5, 4, 3, 5), None); // past the list end
    assert_eq!(tree_row_at(r, 0, 4, 0, 10), None); // left border
    assert_eq!(tree_row_at(r, 5, 1, 0, 10), None); // top border
    assert_eq!(tree_row_at(r, 5, 10, 0, 10), None); // bottom border
    assert_eq!(tree_row_at(Rect { x: 0, y: 0, width: 2, height: 10 }, 1, 1, 0, 10), None);
}

#[test]
fn cursor_moves_clamp() {
    assert_eq!(move_cursor(Some(3), 1, 10), Some(4));
    assert_eq!(move_cursor(Some(9), 3, 10), Some(9));
    assert_eq!(move_cursor(Some(1), -3, 10), Some(0));
    assert_eq!(move_cursor(None, 2, 10), Some(2));
    assert_eq!(move_cursor(Some(0), 1, 0), None);
}

#[test]
fn held_key_acceleration() {
    assert_eq!(nav_step(0), 1);
    assert_eq!(nav_step(3), 1);
    assert_eq!(nav_step(4), 2);
    assert_eq!(nav_step(7), 2);
    assert_eq!(nav_step(8), 4);
    assert_eq!(nav_step(12), 4);
    assert_eq!(nav_step(13), 8);
    assert_eq!(next_streak(true, 4), 5);
    assert_eq!(next_streak(false, 4), 0);
}

#[test]
fn pan_and_jump() {
    assert_eq!(hscroll_right(0), 2);
    assert_eq!(hscroll_right(79), 80);
    assert_eq!(hscroll_left(1), 0);
    assert_eq!(hscroll_left(10), 8);
    assert_eq!(clamp_index(3, 10), 3);
    assert_eq!(clamp_index(30, 10), 9);
}
