//! Screen geometry for the mouse and the cursor: hit-testing panels and
//! buttons, seek-bar positions, clicked tree rows, and clamped or wrapping
//! cursor moves.
use vstd::prelude::*;

verus! {

/// A screen rectangle in terminal cells.
#[derive(Clone, Copy, PartialEq, Eq, Structural, Debug)]
pub struct Rect {
    pub x: u16,
    pub y: u16,
    pub width: u16,
    pub height: u16,
}

/// A rectangle whose right and bottom edges are on screen coordinates.
pub open spec fn rect_fits(r: Rect) -> bool {
    r.x + r.width <= u16::MAX && r.y + r.height <= u16::MAX
}

/// Frames the copy button shows a checkmark after a successful copy.
pub const COPY_FLASH_FRAMES: u64 = 90;

/// The copy-button cell one space after a panel's title text, clamped to the
/// last column inside the right border; `None` when the panel is too small.
/// `title_row` is the title's offset from the panel top, `name_cols` its
/// display width, `text_off` the thumbnail offset before it; text starts after
/// a one-column border and a one-column padding.
pub open spec fn copy_btn_of(panel: Rect, title_row: u16, name_cols: nat, text_off: u16) -> Option<Rect> {
    if panel.width < 6 || panel.height < title_row + 2 {
        None
    } else {
        let text_x = panel.x + 2 + text_off;
        let last_inner = panel.x + panel.width - 2;
        let x = if text_x + name_cols + 1 < last_inner { text_x + name_cols + 1 } else { last_inner };
        Some(Rect { x: x as u16, y: (panel.y + title_row) as u16, width: 1, height: 1 })
    }
}

pub fn copy_btn_after(panel: Rect, title_row: u16, name_cols: usize, text_off: u16) -> (r: Option<Rect>)
    requires
        rect_fits(panel),
        title_row + 2 <= u16::MAX,
        panel.x + 2 + text_off <= u16::MAX,
    ensures
        r == copy_btn_of(panel, title_row, name_cols as nat, text_off),
{
    if panel.width < 6 || panel.height < title_row + 2 {
        return None;
    }
    let text_x = panel.x + 2 + text_off;
    let last_inner = panel.x + panel.width - 2;
    let want: u128 = text_x as u128 + name_cols as u128 + 1;
    let x: u16 = if want < last_inner as u128 { want as u16 } else { last_inner };
    Some(Rect { x, y: panel.y + title_row, width: 1, height: 1 })
}

/// Width (cells, including a trailing one-column gap) of a panel's cover
/// thumbnail: twice the inner height, at most a third of the inner width, at
/// least one; 0 without art or when the panel is too small.
pub open spec fn thumb_cols_of(panel: Rect, has_art: bool) -> int {
    let inner_w: int = if panel.width >= 4 { panel.width - 4 } else { 0 };
    let inner_h: int = if panel.height >= 2 { panel.height - 2 } else { 0 };
    if !has_art || inner_h == 0 || inner_w < 12 {
        0
    } else {
        let a = if inner_h * 2 < inner_w / 3 { inner_h * 2 } else { inner_w / 3 };
        (if a < 1 { 1 } else { a }) + 1
    }
}

pub fn thumb_cols(panel: Rect, has_art: bool) -> (r: u16)
    requires
        panel.height <= 32769,
    ensures
        r == thumb_cols_of(panel, has_art),
{
    if !has_art {
        return 0;
    }
    let inner_w = panel.width.saturating_sub(4);
    let inner_h = panel.height.saturating_sub(2);
    if inner_h == 0 || inner_w < 12 {
        return 0;
    }
    let a = if inner_h * 2 < inner_w / 3 { inner_h * 2 } else { inner_w / 3 };
    (if a < 1 { 1 } else { a }) + 1
}

/// True while `stamp` is within the flash window of the current `frame`
/// (frame counters wrap).
pub fn flashing(stamp: Option<u64>, frame: u64) -> (r: bool)
    ensures
        r == match stamp {
            Some(f0) => ((frame - f0) % 0x1_0000_0000_0000_0000int) < COPY_FLASH_FRAMES,
            None => false,
        },
{
    match stamp {
        Some(f0) => {
            let d = frame.wrapping_sub(f0);
            proof {
                let m = (frame - f0) % 0x1_0000_0000_0000_0000int;
                if frame >= f0 {
                    vstd::arithmetic::div_mod::lemma_small_mod((frame - f0) as nat, 0x1_0000_0000_0000_0000nat);
                } else {
                    vstd::arithmetic::div_mod::lemma_mod_multiples_vanish(1, frame - f0, 0x1_0000_0000_0000_0000int);
                    vstd::arithmetic::div_mod::lemma_small_mod((0x1_0000_0000_0000_0000int + frame - f0) as nat, 0x1_0000_0000_0000_0000nat);
                }
            }
            d < COPY_FLASH_FRAMES
        },
        None => false,
    }
}

/// Whether (col,row) lands inside the optional button rect.
pub fn hit(rect: Option<Rect>, col: u16, row: u16) -> (r: bool)
    requires
        rect matches Some(b) ==> rect_fits(b),
    ensures
        r == match rect {
            Some(b) => b.x <= col < b.x + b.width && b.y <= row < b.y + b.height,
            None => false,
        },
{
    match rect {
        Some(b) => col >= b.x && col < b.x + b.width && row >= b.y && row < b.y + b.height,
        None => false,
    }
}

/// The seek fraction of column `col` on bar `r`, as `(numerator, denominator)`:
/// the interior spans `r.x+1 ..= r.x+r.width-2`, the column is clamped into
/// it, so the left interior column is 0 and the right one is exactly 1.
/// A bar narrower than 4 gives 0.
pub open spec fn frac_col_of(r: Rect, col: u16) -> (int, int) {
    if r.width < 4 {
        (0, 1)
    } else {
        let left = r.x + 1;
        let right = r.x + r.width - 2;
        let c = if col < left { left } else if col > right { right } else { col as int };
        (c - left, right - left)
    }
}

pub fn frac_col(r: Rect, col: u16) -> (f: (u16, u16))
    requires
        rect_fits(r),
    ensures
        f.0 == frac_col_of(r, col).0,
        f.1 == frac_col_of(r, col).1,
        f.1 >= 1,
        f.0 <= f.1,
{
    if r.width < 4 {
        return (0, 1);
    }
    let left = r.x + 1;
    let right = r.x + r.width - 2;
    let c = if col < left { left } else if col > right { right } else { col };
    (c - left, right - left)
}

/// Whether a press at (col,row) lands inside bar `r`'s interior, borders
/// excluded (bars need width 4 and height 3).
pub open spec fn in_interior(r: Rect, col: u16, row: u16) -> bool {
    &&& r.width >= 4
    &&& r.height >= 3
    &&& r.y < row < r.y + r.height - 1
    &&& r.x < col < r.x + r.width - 1
}

/// The seek fraction for a press inside the bar's interior, else `None`.
pub fn frac_in_rect(r: Rect, col: u16, row: u16) -> (f: Option<(u16, u16)>)
    requires
        rect_fits(r),
    ensures
        f is Some == in_interior(r, col, row),
        f matches Some(v) ==> v.0 == frac_col_of(r, col).0 && v.1 == frac_col_of(r, col).1,
{
    if r.width < 4 || r.height < 3 {
        return None;
    }
    if row <= r.y || row >= r.y + r.height - 1 || col <= r.x || col >= r.x + r.width - 1 {
        return None;
    }
    Some(frac_col(r, col))
}

/// The visible-list index clicked at (col,row) inside the tree panel `r`
/// scrolled by `offset`: the row below the top border plus the scroll, when
/// that is a list entry.
pub open spec fn tree_row_of(r: Rect, col: u16, row: u16, offset: nat, len: nat) -> Option<int> {
    if r.width < 3 || r.height < 3 {
        None
    } else if col <= r.x || col >= r.x + r.width - 1 {
        None
    } else if row <= r.y || row >= r.y + r.height - 1 {
        None
    } else {
        let idx = row - (r.y + 1) + offset;
        if idx < len {
            Some(idx)
        } else {
            None
        }
    }
}

pub fn tree_row_at(r: Rect, col: u16, row: u16, offset: usize, len: usize) -> (i: Option<usize>)
    requires
        rect_fits(r),
    ensures
        match i {
            Some(v) => tree_row_of(r, col, row, offset as nat, len as nat) == Some(v as int),
            None => tree_row_of(r, col, row, offset as nat, len as nat) is None,
        },
{
    if r.width < 3 || r.height < 3 {
        return None;
    }
    if col <= r.x || col >= r.x + r.width - 1 {
        return None;
    }
    if row <= r.y || row >= r.y + r.height - 1 {
        return None;
    }
    let d = (row - (r.y + 1)) as usize;
    if d >= len || offset >= len - d {
        return None;
    }
    Some(d + offset)
}

/// The list cursor after moving by `delta`: clamped to the list; an empty
/// list keeps no selection change (`None`).
pub open spec fn cursor_move_of(cur: Option<nat>, delta: int, len: nat) -> Option<int> {
    if len == 0 {
        None
    } else {
        let c: int = match cur {
            Some(v) => v as int,
            None => 0,
        };
        let t = c + delta;
        Some(if t < 0 { 0 } else if t > len - 1 { len - 1 } else { t })
    }
}

pub fn move_cursor(cur: Option<usize>, delta: i32, len: usize) -> (r: Option<usize>)
    ensures
        match r {
            Some(v) => cursor_move_of(
                match cur { Some(c) => Some(c as nat), None => None },
                delta as int,
                len as nat,
            ) == Some(v as int),
            None => len == 0,
        },
        r matches Some(v) ==> v < len,
{
    if len == 0 {
        return None;
    }
    let c: i128 = match cur {
        Some(v) => v as i128,
        None => 0,
    };
    let max = (len - 1) as i128;
    let t = c + delta as i128;
    let v = if t < 0 { 0 } else if t > max { max } else { t };
    Some(v as usize)
}

/// Held-key acceleration: the row step for a run of `streak` repeats.
pub open spec fn nav_step_of(streak: u32) -> int {
    if streak <= 3 {
        1
    } else if streak <= 7 {
        2
    } else if streak <= 12 {
        4
    } else {
        8
    }
}

pub fn nav_step(streak: u32) -> (r: i32)
    ensures
        r == nav_step_of(streak),
{
    if streak <= 3 {
        1
    } else if streak <= 7 {
        2
    } else if streak <= 12 {
        4
    } else {
        8
    }
}

/// The repeat count after a press: one more while the same direction is
/// held, back to 0 on a fresh press.
pub fn next_streak(held: bool, streak: u32) -> (r: u32)
    requires
        held ==> streak < u32::MAX,
    ensures
        r == if held { streak + 1 } else { 0 },
{
    if held {
        streak + 1
    } else {
        0
    }
}

/// The accelerated step never shrinks as a key stays held, and is 1 to 8 rows.
pub proof fn law_nav_step_monotone(a: u32, b: u32)
    requires
        a <= b,
    ensures
        1 <= nav_step_of(a) <= nav_step_of(b) <= 8,
{
}

/// Horizontal tree pan one notch right: two columns, at most 80.
pub fn hscroll_right(h: u16) -> (r: u16)
    ensures
        r == if h as int + 2 < 80 { h as int + 2 } else { 80 },
{
    if h < 78 {
        h + 2
    } else {
        80
    }
}

/// Horizontal tree pan one notch left: two columns, not below 0.
pub fn hscroll_left(h: u16) -> (r: u16)
    ensures
        r == if h >= 2 { h - 2 } else { 0 },
{
    h.saturating_sub(2)
}

/// `G` in a list of `n` entries (`n > 0`): the last index; a jump to `i` clamped.
pub fn clamp_index(i: usize, n: usize) -> (r: usize)
    requires
        n > 0,
    ensures
        r == if i < n { i as int } else { n - 1 },
{
    if i < n {
        i
    } else {
        n - 1
    }
}

} // verus!
