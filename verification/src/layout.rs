//! Placing the Insert-mode overlay on the screen.
use vstd::prelude::*;
use ratatui::layout::{Constraint, Direction, Layout, Rect};

verus! {

/// A rectangle of terminal cells.
#[derive(Debug, Clone, Copy, PartialEq, Eq, Structural)]
pub struct Area {
    pub x: u16,
    pub y: u16,
    pub width: u16,
    pub height: u16,
}

impl View for Area {
    type V = (u16, u16, u16, u16);

    open spec fn view(&self) -> (u16, u16, u16, u16) {
        (self.x, self.y, self.width, self.height)
    }
}

/// The direction in which an area is cut.
#[derive(Debug, Clone, Copy, PartialEq, Eq, Structural)]
pub enum Cut {
    /// Into bands stacked top to bottom.
    Rows,
    /// Into bands side by side, left to right.
    Columns,
}

/// Where a band starts and how long it is along the cut: rows for `Cut::Rows`, columns for
/// `Cut::Columns`.
pub open spec fn along(cut: Cut, a: Area) -> (int, int) {
    match cut {
        Cut::Rows => (a.y as int, a.height as int),
        Cut::Columns => (a.x as int, a.width as int),
    }
}

/// Where a band starts and how long it is across the cut.
pub open spec fn across(cut: Cut, a: Area) -> (int, int) {
    match cut {
        Cut::Rows => (a.x as int, a.width as int),
        Cut::Columns => (a.y as int, a.height as int),
    }
}

/// The band lies inside `area` along the cut and spans it exactly across.
pub open spec fn band_within(cut: Cut, area: Area, band: Area) -> bool {
    &&& across(cut, band) == across(cut, area)
    &&& along(cut, area).0 <= along(cut, band).0
    &&& along(cut, band).0 + along(cut, band).1 <= along(cut, area).0 + along(cut, area).1
}

/// The band starts within half a cell of `before` percent of the area along the cut, and ends
/// within half a cell of `before + share` percent.
pub open spec fn band_near_share(cut: Cut, area: Area, band: Area, before: int, share: int) -> bool {
    let (start, len) = along(cut, area);
    let (band_start, band_len) = along(cut, band);
    &&& -50 <= 100 * (band_start - start) - before * len <= 50
    &&& -50 <= 100 * (band_start + band_len - start) - (before + share) * len <= 50
}

/// Calls `Layout::split` of ratatui (default flex, no margin, no spacing) with
/// `Constraint::Percentage(first)`, `Constraint::Percentage(second)` and
/// `Constraint::Percentage(third)`, in the direction `cut`, on `area`, and gives back the
/// three bands.
///
/// Claimed of the outside code: each band spans `area` across the cut and lies inside it along
/// the cut (the solver's required constraints keep every boundary inside the area and in
/// order, and the bands are built from rounded boundaries with the cross axis copied from the
/// area). When the three percentages add up to at most 100 and the area's far edge fits in a
/// `u16`, each band starts and ends within half a cell of its percentage boundary: under the
/// default flex (`Flex::Start`) the placement that meets every percentage exactly, with empty
/// spacers before and between the bands and the rest in the last spacer, is then the only
/// optimum of the solver's weighted constraints (a percentage weighs `STRONG`, more than the
/// last spacer's `GROW` and the bands' `ALL_SEGMENT_GROW` together), and each boundary is
/// rounded to the nearest cell. Where the percentages add up to more than 100, or the area
/// reaches past `u16::MAX`, nothing is claimed of where the bands fall inside the area.
#[verifier::external_body]
fn split_in_three(cut: Cut, first: u16, second: u16, third: u16, area: Area) -> (bands: (Area, Area, Area))
    ensures
        band_within(cut, area, bands.0),
        band_within(cut, area, bands.1),
        band_within(cut, area, bands.2),
        first + second + third <= 100 && along(cut, area).0 + along(cut, area).1 <= u16::MAX
            ==> band_near_share(cut, area, bands.0, 0, first as int)
                && band_near_share(cut, area, bands.1, first as int, second as int)
                && band_near_share(cut, area, bands.2, first + second, third as int),
{
    let direction = match cut {
        Cut::Rows => Direction::Vertical,
        Cut::Columns => Direction::Horizontal,
    };
    let rects = Layout::default()
        .direction(direction)
        .constraints([Constraint::Percentage(first), Constraint::Percentage(second), Constraint::Percentage(third)])
        .split(Rect { x: area.x, y: area.y, width: area.width, height: area.height });
    let band = |r: Rect| Area { x: r.x, y: r.y, width: r.width, height: r.height };
    (band(rects[0]), band(rects[1]), band(rects[2]))
}

/// The percentages that cut an area into a middle band of `percent` between two equal
/// margins: `(100 - percent) / 2`, `percent`, `(100 - percent) / 2`.
pub fn centered_percentages(percent: u16) -> (p: (u16, u16, u16))
    requires
        percent <= 100,
    ensures
        p == (((100 - percent) / 2) as u16, percent, ((100 - percent) / 2) as u16),
{
    let side = (100 - percent) / 2;
    (side, percent, side)
}

/// A rectangle centered in `r`, about `percent_x` percent of its width and `percent_y`
/// percent of its height: the middle band of the middle band, as ratatui's layout places
/// them for the percentages of [`centered_percentages`].
pub fn centered_rect(percent_x: u16, percent_y: u16, r: Area) -> (c: Area)
    requires
        percent_x <= 100,
        percent_y <= 100,
    ensures
        r.x <= c.x,
        c.x + c.width <= r.x + r.width,
        r.y <= c.y,
        c.y + c.height <= r.y + r.height,
        r.x + r.width <= u16::MAX ==> {
            &&& -50 <= 100 * (c.x - r.x) - ((100 - percent_x) / 2) * r.width <= 50
            &&& -100 <= 100 * c.width - percent_x * r.width <= 100
        },
        r.y + r.height <= u16::MAX ==> {
            &&& -50 <= 100 * (c.y - r.y) - ((100 - percent_y) / 2) * r.height <= 50
            &&& -100 <= 100 * c.height - percent_y * r.height <= 100
        },
{
    let (top, middle, bottom) = centered_percentages(percent_y);
    let popup = split_in_three(Cut::Rows, top, middle, bottom, r).1;
    let (left, center, right) = centered_percentages(percent_x);
    let c = split_in_three(Cut::Columns, left, center, right, popup).1;
    proof {
        let (w, h) = (r.width as int, r.height as int);
        assert((left + center) * w == left * w + center * w) by (nonlinear_arith);
        assert((top + middle) * h == top * h + middle * h) by (nonlinear_arith);
    }
    c
}

/// Where the terminal cursor stands inside the bordered `modal` for the edit cursor at
/// character `idx` (the index taken modulo 2^16): the text wraps at the inner width, and the
/// position is kept inside the border. `None` when the border leaves no room inside.
pub open spec fn modal_cursor_at(modal: Area, idx: usize) -> Option<(u16, u16)> {
    let inner_width: int = if modal.width >= 2 { modal.width - 2 } else { 0 };
    let inner_height: int = if modal.height >= 2 { modal.height - 2 } else { 0 };
    if inner_width > 0 && inner_height > 0 {
        let offset = (idx as u16) as int;
        let x = modal.x + 1 + offset % inner_width;
        let y = modal.y + 1 + offset / inner_width;
        let max_x = modal.x + modal.width - 2;
        let max_y = modal.y + modal.height - 2;
        Some(((if x < max_x { x } else { max_x }) as u16, (if y < max_y { y } else { max_y }) as u16))
    } else {
        None
    }
}

/// The terminal cursor's position for the edit cursor at character `idx` inside the
/// bordered overlay `modal`.
pub fn modal_cursor(modal: Area, idx: usize) -> (p: Option<(u16, u16)>)
    requires
        modal.x + modal.width <= u16::MAX,
        modal.y + modal.height <= u16::MAX,
    ensures
        p == modal_cursor_at(modal, idx),
{
    let inner_width = if modal.width >= 2 { modal.width - 2 } else { 0 };
    let inner_height = if modal.height >= 2 { modal.height - 2 } else { 0 };
    if inner_width > 0 && inner_height > 0 {
        let cursor_offset = idx as u16;
        let row_offset = cursor_offset / inner_width;
        let col_offset = cursor_offset % inner_width;
        let x = modal.x + 1 + col_offset;
        let y_raw = modal.y as u32 + 1 + row_offset as u32;
        let max_x = modal.x + modal.width - 2;
        let max_y = modal.y + modal.height - 2;
        let cursor_x = if x < max_x { x } else { max_x };
        let cursor_y = if y_raw < max_y as u32 { y_raw as u16 } else { max_y };
        Some((cursor_x, cursor_y))
    } else {
        None
    }
}

} // verus!
