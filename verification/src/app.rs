//! The interactive session: the mode, the cursor, the scrolled viewport and the edit
//! buffer of Insert mode, over a [`Spreadsheet`].
//!
//! Cell values are not computed here: every change of a cell hands back the [`Recalc`] of
//! the sheet, which the caller evaluates.
use vstd::prelude::*;
use crate::formula::text_fits;
use crate::normal_mode::{cleared, fits, step, CommandView, Motion, NormalCommand, NormalModeState, PendingInput};
use crate::sheet::{Recalc, Spreadsheet};
use crate::storage::csv_written;
use crate::text::{chars_of, push_char, string_of, trimmed};

verus! {

/// The editing mode.
#[derive(Debug, Clone, Copy, PartialEq, Eq, Structural)]
pub enum Mode {
    /// Default navigation mode. hjkl / arrow keys move the cursor.
    /// 'a'/F2 → Visual, 'i' → Insert (blank), '=' → Insert ('='), Enter → Insert (current value).
    Normal,
    /// Focused navigation mode. Arrow keys move the cursor; hjkl do nothing.
    /// Any printable character press enters Insert mode for the current cell.
    /// ESC returns to Normal.
    Visual,
    /// Cell editing mode. Shows the modal input overlay.
    /// Enter commits the buffer; ESC discards and returns to Visual.
    Insert,
}

/// A cursor move.
#[derive(Debug, Clone, Copy, PartialEq, Eq, Structural)]
pub enum Direction {
    /// Positive = down, negative = up.
    Vertical(isize),
    /// Positive = right, negative = left.
    Horizontal(isize),
}

/// The layout of the grid on the screen, in terminal cells.
#[derive(Debug, Clone, Copy, PartialEq, Eq, Structural)]
pub struct GridConfig {
    /// Width reserved for the row numbers.
    pub header_offset_x: u16,
    /// Height reserved for the column letters.
    pub header_offset_y: u16,
    /// Width of each column.
    pub cell_width: u16,
    /// Height of each row.
    pub cell_height: u16,
}

impl Default for GridConfig {
    fn default() -> (c: Self)
        ensures
            c == (GridConfig { header_offset_x: 6, header_offset_y: 1, cell_width: 12, cell_height: 1 }),
    {
        GridConfig { header_offset_x: 6, header_offset_y: 1, cell_width: 12, cell_height: 1 }
    }
}

/// How many whole rows and columns of cells fit in an area of `width` × `height` under
/// the headers.
pub open spec fn grid_area(cfg: GridConfig, width: u16, height: u16) -> (usize, usize) {
    if width < cfg.header_offset_x || height < cfg.header_offset_y {
        (0, 0)
    } else {
        (((height - cfg.header_offset_y) / cfg.cell_height as int) as usize,
         ((width - cfg.header_offset_x) / cfg.cell_width as int) as usize)
    }
}

/// How many whole rows and columns of cells the viewport shows in a terminal of
/// `width` × `height`, the bottom line being the status bar.
pub open spec fn viewport_area(cfg: GridConfig, width: u16, height: u16) -> (usize, usize) {
    let grid_height: int = if height >= 1 { height - 1 } else { 0 };
    let rows: int = if grid_height > cfg.header_offset_y { (grid_height - cfg.header_offset_y) / cfg.cell_height as int } else { 0 };
    let cols: int = if width > cfg.header_offset_x { (width - cfg.header_offset_x) / cfg.cell_width as int } else { 0 };
    (rows as usize, cols as usize)
}

impl GridConfig {
    /// The number of whole rows and columns of cells that an area of `width` × `height`
    /// shows under the headers: `(rows, cols)`, both 0 when the area is narrower or lower
    /// than the headers.
    pub fn visible_dimensions(&self, width: u16, height: u16) -> (d: (usize, usize))
        requires
            self.cell_width >= 1,
            self.cell_height >= 1,
        ensures
            d == grid_area(*self, width, height),
    {
        if width < self.header_offset_x || height < self.header_offset_y {
            return (0, 0);
        }
        let cols = ((width - self.header_offset_x) / self.cell_width) as usize;
        let rows = ((height - self.header_offset_y) / self.cell_height) as usize;
        (rows, cols)
    }
}

/// The first scroll position at or nearest to `scroll` that shows `cursor` among `visible`
/// lines.
pub open spec fn scroll_to(scroll: usize, cursor: usize, visible: usize) -> usize {
    if cursor < scroll {
        cursor
    } else if cursor >= scroll + visible {
        (cursor - visible + 1) as usize
    } else {
        scroll
    }
}

/// Where a move by `delta` from `pos` lands on an axis of `size` lines: forward moves stop at
/// the last line, backward moves at the first.
pub open spec fn moved_to(pos: usize, delta: isize, size: nat) -> usize {
    if delta >= 0 {
        if pos + delta <= size - 1 { (pos + delta) as usize } else { (size - 1) as usize }
    } else {
        if pos + delta >= 0 { (pos + delta) as usize } else { 0 }
    }
}

/// A key of the keyboard, as the session tells them apart.
#[derive(Debug, Clone, Copy, PartialEq, Eq, Structural)]
pub enum Key {
    Char(char),
    Enter,
    Esc,
    Left,
    Right,
    Up,
    Down,
    Home,
    End,
    Backspace,
    Delete,
    /// A function key, by number.
    F(u8),
    Other,
}

/// The modifier keys held with a key.
#[derive(Debug, Clone, Copy, PartialEq, Eq, Structural)]
pub enum Modifiers {
    /// None held.
    Plain,
    /// Control alone.
    Control,
    /// Shift alone.
    Shift,
    /// Any other combination.
    Mixed,
}

/// A mouse event, as the session tells them apart.
#[derive(Debug, Clone, Copy, PartialEq, Eq, Structural)]
pub enum MouseInput {
    /// The left button pressed at a terminal position.
    LeftDown { column: u16, row: u16 },
    /// The wheel turned up; `control` when Control is held.
    ScrollUp { control: bool },
    /// The wheel turned down; `control` when Control is held.
    ScrollDown { control: bool },
    Other,
}

/// What Insert mode is entered with.
#[derive(Debug, Clone, Copy, PartialEq, Eq, Structural)]
pub enum Seed {
    /// An empty buffer.
    Blank,
    /// A buffer holding `=`, to type a formula.
    Formula,
    /// A buffer holding the character typed.
    Typed(char),
    /// The current cell's text.
    CurrentCell,
}

/// A delete command of Normal mode. Nothing shifts: the cells it covers are emptied.
#[derive(Debug, Clone, Copy, PartialEq, Eq, Structural)]
pub enum Erase {
    /// `d` with a motion: cells of the cursor's row for `h`, `l`, `w`, `b`, `0`, `$`;
    /// whole rows for `j` and `k`.
    Delete { motion: Motion, count: usize },
    /// `dd`: `count` whole rows from the cursor's row down.
    DeleteRows { count: usize },
    /// `gd` with a motion: cells of the cursor's column for `j`, `k`, `0`, `$`; whole
    /// columns for `h`, `l`, `w`, `b`.
    ColumnDelete { motion: Motion, count: usize },
    /// `gdd`: `count` whole columns from the cursor's column rightwards.
    DeleteColumns { count: usize },
}

/// The block of cells a delete empties, rows `top..bottom` and columns `left..right`, and
/// where the cursor goes.
#[derive(Debug, Clone, Copy, PartialEq, Eq, Structural)]
pub struct Clearing {
    pub top: usize,
    pub bottom: usize,
    pub left: usize,
    pub right: usize,
    pub row: usize,
    pub col: usize,
}

/// `pos` moved back by `n`, stopping at 0.
pub open spec fn back(pos: usize, n: usize) -> usize {
    if pos >= n { (pos - n) as usize } else { 0 }
}

/// `from + n`, stopping at `size`.
pub open spec fn up_to(from: usize, n: usize, size: nat) -> usize {
    if from + n <= size { (from + n) as usize } else { size as usize }
}

/// What a delete empties, with the cursor on (r, c) of a grid of `rows` × `cols` cells, and
/// where the cursor goes: cells to the left (the cursor going to the leftmost) or right of
/// the cursor, the rows from the cursor's down or up (the cursor going to the topmost), the
/// row's cells before the cursor (`0`, the cursor going to column A) or from it to the end
/// (`$`); `gd` is the same on the other axis. `None` on a grid without cells.
pub open spec fn erase_plan(x: Erase, r: usize, c: usize, rows: nat, cols: nat) -> Option<Clearing> {
    if r >= rows || c >= cols {
        None
    } else {
        let (rs, cs) = (rows as usize, cols as usize);
        let (below, right) = ((r + 1) as usize, (c + 1) as usize);
        Some(match x {
            Erase::Delete { motion, count } => match motion {
                Motion::Left | Motion::WordBack =>
                    Clearing { top: r, bottom: below, left: back(c, count), right: c, row: r, col: back(c, count) },
                Motion::Right | Motion::WordForward =>
                    Clearing { top: r, bottom: below, left: right, right: up_to(right, count, cols), row: r, col: c },
                Motion::Down => Clearing { top: r, bottom: up_to(below, count, rows), left: 0, right: cs, row: r, col: c },
                Motion::Up => Clearing { top: back(r, count), bottom: below, left: 0, right: cs, row: back(r, count), col: c },
                Motion::StartOfRow => Clearing { top: r, bottom: below, left: 0, right: c, row: r, col: 0 },
                Motion::EndOfRow => Clearing { top: r, bottom: below, left: c, right: cs, row: r, col: c },
            },
            Erase::DeleteRows { count } => Clearing { top: r, bottom: up_to(r, count, rows), left: 0, right: cs, row: r, col: c },
            Erase::ColumnDelete { motion, count } => match motion {
                Motion::Down => Clearing { top: below, bottom: up_to(below, count, rows), left: c, right: right, row: r, col: c },
                Motion::Up => Clearing { top: back(r, count), bottom: r, left: c, right: right, row: back(r, count), col: c },
                Motion::Right | Motion::WordForward =>
                    Clearing { top: 0, bottom: rs, left: right, right: up_to(right, count, cols), row: r, col: c },
                Motion::Left | Motion::WordBack =>
                    Clearing { top: 0, bottom: rs, left: back(c, count), right: c, row: r, col: back(c, count) },
                Motion::EndOfRow => Clearing { top: r, bottom: rs, left: c, right: right, row: r, col: c },
                Motion::StartOfRow => Clearing { top: 0, bottom: below, left: c, right: right, row: 0, col: c },
            },
            Erase::DeleteColumns { count } => Clearing { top: 0, bottom: rs, left: c, right: up_to(c, count, cols), row: r, col: c },
        })
    }
}

fn back_of(pos: usize, n: usize) -> (p: usize)
    ensures
        p == back(pos, n),
{
    if pos >= n { pos - n } else { 0 }
}

fn up_to_of(from: usize, n: usize, size: usize) -> (p: usize)
    requires
        from <= size,
    ensures
        p == up_to(from, n, size as nat),
{
    if n <= size - from { from + n } else { size }
}

/// What a delete empties and where the cursor goes: see [`erase_plan`].
pub fn erase_plan_of(x: Erase, r: usize, c: usize, rows: usize, cols: usize) -> (plan: Option<Clearing>)
    ensures
        plan == erase_plan(x, r, c, rows as nat, cols as nat),
{
    if r >= rows || c >= cols {
        return None;
    }
    let (below, right) = (r + 1, c + 1);
    Some(match x {
        Erase::Delete { motion, count } => match motion {
            Motion::Left | Motion::WordBack => {
                let to = back_of(c, count);
                Clearing { top: r, bottom: below, left: to, right: c, row: r, col: to }
            },
            Motion::Right | Motion::WordForward =>
                Clearing { top: r, bottom: below, left: right, right: up_to_of(right, count, cols), row: r, col: c },
            Motion::Down => Clearing { top: r, bottom: up_to_of(below, count, rows), left: 0, right: cols, row: r, col: c },
            Motion::Up => {
                let to = back_of(r, count);
                Clearing { top: to, bottom: below, left: 0, right: cols, row: to, col: c }
            },
            Motion::StartOfRow => Clearing { top: r, bottom: below, left: 0, right: c, row: r, col: 0 },
            Motion::EndOfRow => Clearing { top: r, bottom: below, left: c, right: cols, row: r, col: c },
        },
        Erase::DeleteRows { count } => Clearing { top: r, bottom: up_to_of(r, count, rows), left: 0, right: cols, row: r, col: c },
        Erase::ColumnDelete { motion, count } => match motion {
            Motion::Down => Clearing { top: below, bottom: up_to_of(below, count, rows), left: c, right: right, row: r, col: c },
            Motion::Up => {
                let to = back_of(r, count);
                Clearing { top: to, bottom: r, left: c, right: right, row: to, col: c }
            },
            Motion::Right | Motion::WordForward =>
                Clearing { top: 0, bottom: rows, left: right, right: up_to_of(right, count, cols), row: r, col: c },
            Motion::Left | Motion::WordBack => {
                let to = back_of(c, count);
                Clearing { top: 0, bottom: rows, left: to, right: c, row: r, col: to }
            },
            Motion::EndOfRow => Clearing { top: r, bottom: rows, left: c, right: right, row: r, col: c },
            Motion::StartOfRow => Clearing { top: 0, bottom: below, left: c, right: right, row: 0, col: c },
        },
        Erase::DeleteColumns { count } => Clearing { top: 0, bottom: rows, left: c, right: up_to_of(c, count, cols), row: r, col: c },
    })
}

/// What a key asks of the session.
#[derive(Debug, Clone, Copy, PartialEq, Eq, Structural)]
pub enum Action {
    Nothing,
    Quit,
    Save,
    MoveToStart,
    MoveToStartOfColumn,
    MoveToStartOfLine,
    /// To the last column of the cursor's row.
    MoveToEndOfLine,
    Move(Direction),
    /// Empty the cells that a delete command of Normal mode covers.
    Erase(Erase),
    DeleteCell,
    EnterVisual,
    ExitVisual,
    EnterInsert(Seed),
    /// A key for the edit buffer of Insert mode.
    Edit(Key),
}

/// What the caller has to do after a key or a click.
pub enum Effect {
    Nothing,
    /// Cells changed: evaluate them in this order.
    Recalculate(Recalc),
    /// Several cells changed: carry out each of these, one after the other.
    RecalculateEach(Vec<Recalc>),
    /// Write the sheet to its file.
    Save,
}

/// The status line of Normal mode.
pub open spec fn normal_status() -> Seq<char> {
    "NORMAL -- 'a'/F2: visual mode | 'i': insert | '=': formula | 's': save | 'q': quit"@
}

/// The status line of Visual mode.
pub open spec fn visual_status() -> Seq<char> {
    "VISUAL -- Arrows: navigate | Type to insert | Esc: back to normal"@
}

/// The status line of Insert mode.
pub open spec fn insert_status() -> Seq<char> {
    "INSERT -- Enter: commit | Esc: discard"@
}

/// The longest time between two clicks on one cell that makes a double click, in
/// nanoseconds.
pub const DOUBLE_CLICK_NANOS: u64 = 300_000_000;

/// Where a move by `delta` from `pos` lands on an axis of `size` lines.
fn step_axis(pos: usize, delta: isize, size: usize) -> (p: usize)
    requires
        delta >= 0 ==> size >= 1 && pos + delta <= usize::MAX,
    ensures
        p == moved_to(pos, delta, size as nat),
{
    if delta >= 0 {
        let amount = delta as usize;
        let target = pos + amount;
        if target <= size - 1 { target } else { size - 1 }
    } else {
        let amount: usize = if delta == isize::MIN { (isize::MAX as usize) + 1 } else { (-delta) as usize };
        if pos >= amount { pos - amount } else { 0 }
    }
}

/// The scroll position that shows `cursor` among `visible` lines, moving from `scroll` as
/// little as possible.
fn scroll_axis(scroll: usize, cursor: usize, visible: usize) -> (s: usize)
    requires
        visible >= 1,
    ensures
        s == scroll_to(scroll, cursor, visible),
{
    if cursor < scroll {
        cursor
    } else if cursor - scroll >= visible {
        cursor - visible + 1
    } else {
        scroll
    }
}

/// The viewport keeps the cursor in view: after scrolling, the cursor's line is one of the
/// `visible` lines shown from the scroll position.
pub proof fn law_viewport_shows_cursor(scroll: usize, cursor: usize, visible: usize)
    requires
        visible >= 1,
    ensures
        scroll_to(scroll, cursor, visible) <= cursor < scroll_to(scroll, cursor, visible) + visible,
{
}

/// The move to the start of the grid, column or line that Home makes with its modifiers.
pub open spec fn home_action(mods: Modifiers) -> Action {
    if mods == Modifiers::Control {
        Action::MoveToStart
    } else if mods == Modifiers::Shift {
        Action::MoveToStartOfColumn
    } else {
        Action::MoveToStartOfLine
    }
}

/// What a key pressed in `mode` with `mods` asks of the session, apart from the character
/// keys of Normal mode, which assemble commands (see [`normal_key_step`]).
pub open spec fn key_action(mode: Mode, key: Key, mods: Modifiers) -> Action {
    match mode {
        Mode::Insert => Action::Edit(key),
        Mode::Visual => match key {
            Key::Esc => Action::ExitVisual,
            Key::Home => home_action(mods),
            Key::Up => Action::Move(Direction::Vertical(-1isize)),
            Key::Down | Key::Enter => Action::Move(Direction::Vertical(1isize)),
            Key::Left => Action::Move(Direction::Horizontal(-1isize)),
            Key::Right => Action::Move(Direction::Horizontal(1isize)),
            Key::Delete | Key::Backspace => Action::DeleteCell,
            Key::Char(c) => Action::EnterInsert(Seed::Typed(c)),
            _ => Action::Nothing,
        },
        Mode::Normal => match key {
            Key::Home => home_action(mods),
            // Character keys go to the command parser: see `normal_key_step`.
            Key::Char(_) => Action::Nothing,
            Key::Delete | Key::Backspace => Action::DeleteCell,
            Key::F(n) => if n == 2 { Action::EnterVisual } else { Action::Nothing },
            Key::Enter => Action::EnterInsert(Seed::CurrentCell),
            Key::Up => Action::Move(Direction::Vertical(-1isize)),
            Key::Down => Action::Move(Direction::Vertical(1isize)),
            Key::Left => Action::Move(Direction::Horizontal(-1isize)),
            Key::Right => Action::Move(Direction::Horizontal(1isize)),
            _ => Action::Nothing,
        },
    }
}

/// A count of steps as a signed move, stopping at the largest one.
pub open spec fn steps(count: usize) -> isize {
    if count <= isize::MAX { count as isize } else { isize::MAX }
}

/// What a command of the Normal-mode parser asks of the session: moves by their count,
/// `0` and `$` to the ends of the row, the mode changes, save, quit and the deletes. Yank,
/// paste, undo and a cancelled command ask nothing.
pub open spec fn command_action(cmd: CommandView) -> Action {
    match cmd {
        CommandView::Move { motion, count } => match motion {
            Motion::Left | Motion::WordBack => Action::Move(Direction::Horizontal((-steps(count)) as isize)),
            Motion::Right | Motion::WordForward => Action::Move(Direction::Horizontal(steps(count))),
            Motion::Up => Action::Move(Direction::Vertical((-steps(count)) as isize)),
            Motion::Down => Action::Move(Direction::Vertical(steps(count))),
            Motion::StartOfRow => Action::MoveToStartOfLine,
            Motion::EndOfRow => Action::MoveToEndOfLine,
        },
        CommandView::EnterVisualMode => Action::EnterVisual,
        CommandView::EnterInsertMode(seed) => match seed {
            None => Action::EnterInsert(Seed::CurrentCell),
            Some(text) => if text.len() == 0 { Action::EnterInsert(Seed::Blank) } else { Action::EnterInsert(Seed::Formula) },
        },
        CommandView::Save => Action::Save,
        CommandView::Quit => Action::Quit,
        CommandView::Delete { motion, count } => Action::Erase(Erase::Delete { motion, count }),
        CommandView::DeleteRow { count } => Action::Erase(Erase::DeleteRows { count }),
        CommandView::ColDelete { motion, count } => Action::Erase(Erase::ColumnDelete { motion, count }),
        CommandView::DeleteCol { count } => Action::Erase(Erase::DeleteColumns { count }),
        _ => Action::Nothing,
    }
}

/// The parser state and the action a key pressed in Normal mode gives, from parser state
/// `p`: a character key is fed to the parser (a count that would leave `usize` cancels the
/// command); `Esc` cancels the command; any other key cancels it and acts as
/// [`key_action`] says.
pub open spec fn normal_key_step(p: PendingInput, key: Key, mods: Modifiers) -> (PendingInput, Action) {
    match key {
        Key::Char(c) => if fits(p, c) {
            let (q, cmd) = step(p, c);
            (q, match cmd { Some(v) => command_action(v), None => Action::Nothing })
        } else {
            (cleared(), Action::Nothing)
        },
        Key::Esc => (cleared(), Action::Nothing),
        _ => (cleared(), key_action(Mode::Normal, key, mods)),
    }
}

fn steps_of(count: usize) -> (n: isize)
    ensures
        n == steps(count),
{
    if count <= isize::MAX as usize { count as isize } else { isize::MAX }
}

/// What a command of the Normal-mode parser asks of the session.
pub fn command_action_of(cmd: &NormalCommand) -> (a: Action)
    ensures
        a == command_action(cmd@),
{
    match cmd {
        NormalCommand::Move { motion, count } => match motion {
            Motion::Left | Motion::WordBack => Action::Move(Direction::Horizontal(-steps_of(*count))),
            Motion::Right | Motion::WordForward => Action::Move(Direction::Horizontal(steps_of(*count))),
            Motion::Up => Action::Move(Direction::Vertical(-steps_of(*count))),
            Motion::Down => Action::Move(Direction::Vertical(steps_of(*count))),
            Motion::StartOfRow => Action::MoveToStartOfLine,
            Motion::EndOfRow => Action::MoveToEndOfLine,
        },
        NormalCommand::EnterVisualMode => Action::EnterVisual,
        NormalCommand::EnterInsertMode(seed) => match seed {
            None => Action::EnterInsert(Seed::CurrentCell),
            Some(text) => if text.as_str().unicode_len() == 0 {
                Action::EnterInsert(Seed::Blank)
            } else {
                Action::EnterInsert(Seed::Formula)
            },
        },
        NormalCommand::Save => Action::Save,
        NormalCommand::Quit => Action::Quit,
        NormalCommand::Delete { motion, count } => Action::Erase(Erase::Delete { motion: *motion, count: *count }),
        NormalCommand::DeleteRow { count } => Action::Erase(Erase::DeleteRows { count: *count }),
        NormalCommand::ColDelete { motion, count } => Action::Erase(Erase::ColumnDelete { motion: *motion, count: *count }),
        NormalCommand::DeleteCol { count } => Action::Erase(Erase::DeleteColumns { count: *count }),
        _ => Action::Nothing,
    }
}

fn home_action_for(mods: Modifiers) -> (a: Action)
    ensures
        a == home_action(mods),
{
    match mods {
        Modifiers::Control => Action::MoveToStart,
        Modifiers::Shift => Action::MoveToStartOfColumn,
        _ => Action::MoveToStartOfLine,
    }
}

/// What a key pressed in `mode` with `mods` asks of the session, as [`key_action`] says (the
/// character keys of Normal mode ask nothing here: they go to the command parser).
pub fn action_for(mode: Mode, key: Key, mods: Modifiers) -> (a: Action)
    ensures
        a == key_action(mode, key, mods),
{
    match mode {
        Mode::Insert => Action::Edit(key),
        Mode::Visual => match key {
            Key::Esc => Action::ExitVisual,
            Key::Home => home_action_for(mods),
            Key::Up => Action::Move(Direction::Vertical(-1isize)),
            Key::Down | Key::Enter => Action::Move(Direction::Vertical(1isize)),
            Key::Left => Action::Move(Direction::Horizontal(-1isize)),
            Key::Right => Action::Move(Direction::Horizontal(1isize)),
            Key::Delete | Key::Backspace => Action::DeleteCell,
            Key::Char(c) => Action::EnterInsert(Seed::Typed(c)),
            _ => Action::Nothing,
        },
        Mode::Normal => match key {
            Key::Home => home_action_for(mods),
            // Character keys go to the command parser: see `normal_key_step`.
            Key::Char(_) => Action::Nothing,
            Key::Delete | Key::Backspace => Action::DeleteCell,
            Key::F(n) => if n == 2 { Action::EnterVisual } else { Action::Nothing },
            Key::Enter => Action::EnterInsert(Seed::CurrentCell),
            Key::Up => Action::Move(Direction::Vertical(-1isize)),
            Key::Down => Action::Move(Direction::Vertical(1isize)),
            Key::Left => Action::Move(Direction::Horizontal(-1isize)),
            Key::Right => Action::Move(Direction::Horizontal(1isize)),
            _ => Action::Nothing,
        },
    }
}

/// What a mouse event asks of the session besides a click.
pub fn mouse_action_for(mode: Mode, ev: MouseInput) -> (a: Action)
    ensures
        a == App::mouse_action(mode, ev),
{
    match ev {
        MouseInput::ScrollUp { control } => {
            if mode == Mode::Insert {
                Action::Nothing
            } else if control {
                Action::Move(Direction::Horizontal(-1isize))
            } else {
                Action::Move(Direction::Vertical(-1isize))
            }
        },
        MouseInput::ScrollDown { control } => {
            if mode == Mode::Insert {
                Action::Nothing
            } else if control {
                Action::Move(Direction::Horizontal(1isize))
            } else {
                Action::Move(Direction::Vertical(1isize))
            }
        },
        _ => Action::Nothing,
    }
}

/// The cell changes an effect hands back, if any.
pub open spec fn effect_recalc(e: Effect) -> Option<Recalc> {
    match e {
        Effect::Recalculate(r) => Some(r),
        _ => None,
    }
}

/// The text Insert mode starts with for `seed`, over session `app`.
pub open spec fn seed_text(app: App, seed: Seed) -> Seq<char> {
    match seed {
        Seed::Blank => Seq::empty(),
        Seed::Formula => seq!['='],
        Seed::Typed(c) => seq![c],
        Seed::CurrentCell => app.current_text(),
    }
}

/// The interactive session over a sheet.
pub struct App {
    pub sheet: Spreadsheet,
    pub mode: Mode,
    pub cursor_row: usize,
    pub cursor_col: usize,
    pub scroll_row: usize,
    pub scroll_col: usize,
    pub grid_config: GridConfig,
    /// The text being edited in Insert mode.
    pub edit_buffer: String,
    /// The position of the edit cursor, in characters.
    pub edit_cursor_idx: usize,
    pub status_message: String,
    pub should_quit: bool,
    /// When the last single click happened, in nanoseconds of the caller's monotonic clock.
    pub last_click_time: Option<u64>,
    pub last_clicked_cell: Option<(usize, usize)>,
    /// The terminal's size (width, height), kept up to date by the caller.
    pub terminal_size: (u16, u16),
    /// The Normal-mode command being typed.
    pub normal: NormalModeState,
}

impl App {
    /// The session's invariant: a well-formed sheet, the cursor on a cell of it (or at the
    /// origin of an empty one), non-zero cell sizes and the edit cursor inside the buffer.
    pub open spec fn wf(&self) -> bool {
        &&& self.sheet.wf()
        &&& self.cursor_row < self.sheet.rows() || self.cursor_row == 0
        &&& self.cursor_col < self.sheet.cols() || self.cursor_col == 0
        &&& self.grid_config.cell_width >= 1
        &&& self.grid_config.cell_height >= 1
        &&& self.edit_cursor_idx <= self.edit_buffer@.len()
    }

    /// The cursor's cell.
    pub open spec fn cursor(&self) -> (usize, usize) {
        (self.cursor_row, self.cursor_col)
    }

    /// A session over `sheet` in Normal mode, the cursor on A1.
    pub fn new(sheet: Spreadsheet) -> (app: Self)
        requires
            sheet.wf(),
        ensures
            app.wf(),
            app.sheet == sheet,
            app.mode == Mode::Normal,
            app.cursor() == (0usize, 0usize),
            app.scroll_row == 0 && app.scroll_col == 0,
            app.grid_config == (GridConfig { header_offset_x: 6, header_offset_y: 1, cell_width: 12, cell_height: 1 }),
            app.edit_buffer@ == Seq::<char>::empty(),
            app.edit_cursor_idx == 0,
            app.status_message@ == normal_status(),
            !app.should_quit,
            app.last_click_time is None,
            app.last_clicked_cell is None,
            app.terminal_size == (80u16, 24u16),
            app.normal@ == cleared(),
    {
        App {
            sheet,
            mode: Mode::Normal,
            cursor_row: 0,
            cursor_col: 0,
            scroll_row: 0,
            scroll_col: 0,
            grid_config: GridConfig::default(),
            edit_buffer: String::new(),
            edit_cursor_idx: 0,
            status_message: "NORMAL -- 'a'/F2: visual mode | 'i': insert | '=': formula | 's': save | 'q': quit".to_owned(),
            should_quit: false,
            last_click_time: None,
            last_clicked_cell: None,
            terminal_size: (80, 24),
            normal: NormalModeState::new(),
        }
    }

    // -------------------------------------------------------------------------
    // Mode transitions
    // -------------------------------------------------------------------------

    /// Switch from Normal to Visual mode.
    pub fn enter_visual_mode(&mut self)
        ensures
            final(self).status_message@ == visual_status(),
            *final(self) == (App { mode: Mode::Visual, status_message: final(self).status_message, ..*old(self) }),
    {
        self.mode = Mode::Visual;
        self.status_message = "VISUAL -- Arrows: navigate | Type to insert | Esc: back to normal".to_owned();
    }

    /// Switch from Visual to Normal mode.
    pub fn exit_visual_mode(&mut self)
        ensures
            final(self).status_message@ == normal_status(),
            *final(self) == (App { mode: Mode::Normal, status_message: final(self).status_message, ..*old(self) }),
    {
        self.mode = Mode::Normal;
        self.status_message = "NORMAL -- 'a'/F2: visual mode | 'i': insert | '=': formula | 's': save | 'q': quit".to_owned();
    }

    /// The text of the cursor's cell, empty when the sheet has no cell there.
    pub open spec fn current_text(&self) -> Seq<char> {
        if self.cursor_row < self.sheet.rows() && self.cursor_col < self.sheet.row_len(self.cursor_row as int) {
            self.sheet.raw(self.cursor_row as int, self.cursor_col as int)
        } else {
            Seq::empty()
        }
    }

    /// `new` is `old` in Insert mode with `buffer` to edit, the edit cursor at its end.
    pub open spec fn insert_entered(old: App, new: App, buffer: Seq<char>) -> bool {
        &&& new.edit_buffer@ == buffer
        &&& new.edit_cursor_idx == buffer.len()
        &&& new.status_message@ == insert_status()
        &&& new == (App {
            mode: Mode::Insert,
            edit_buffer: new.edit_buffer,
            edit_cursor_idx: new.edit_cursor_idx,
            status_message: new.status_message,
            ..old
        })
    }

    /// Switch to Insert mode: `Some(s)` seeds the buffer with `s` (`"="` for a formula,
    /// `""` for a blank insert); `None` loads the text of the cursor's cell.
    pub fn enter_insert_mode(&mut self, initial_value: Option<String>)
        requires
            old(self).wf(),
        ensures
            final(self).wf(),
            App::insert_entered(*old(self), *final(self), match initial_value {
                Some(s) => s@,
                None => old(self).current_text(),
            }),
    {
        self.mode = Mode::Insert;
        self.edit_buffer = match initial_value {
            Some(val) => val,
            None => match self.sheet.get_cell(self.cursor_row, self.cursor_col) {
                Some(raw) => raw.clone(),
                None => String::new(),
            },
        };
        self.edit_cursor_idx = self.edit_buffer.as_str().unicode_len();
        self.status_message = "INSERT -- Enter: commit | Esc: discard".to_owned();
    }

    /// `new` is `old` back in Visual mode after Insert mode ended, the buffer written to
    /// the cursor's cell when `commit` (`rc` being what the write returned) and dropped
    /// otherwise.
    pub open spec fn insert_exited(old: App, new: App, commit: bool, rc: Option<Recalc>) -> bool {
        &&& new.edit_buffer@ == Seq::<char>::empty()
        &&& new.status_message@ == if commit { "Cell updated"@ } else { "Insert canceled"@ }
        &&& if commit {
            Spreadsheet::cell_written(old.sheet, new.sheet, old.cursor_row, old.cursor_col, old.edit_buffer@, rc)
        } else {
            new.sheet == old.sheet && rc is None
        }
        &&& new == (App {
            sheet: new.sheet,
            mode: Mode::Visual,
            edit_buffer: new.edit_buffer,
            edit_cursor_idx: 0,
            status_message: new.status_message,
            ..old
        })
    }

    /// The text of the edit buffer can be written to the cursor's cell.
    pub open spec fn buffer_fits(&self) -> bool {
        self.sheet.in_grid(self.cursor()) ==> text_fits(self.edit_buffer@)
    }

    /// Commit or discard the edit buffer, then return to Visual mode. Returns what the
    /// sheet hands back for a committed write inside the grid.
    pub fn exit_insert_mode(&mut self, commit: bool) -> (rc: Option<Recalc>)
        requires
            old(self).wf(),
            commit ==> old(self).buffer_fits(),
        ensures
            final(self).wf(),
            App::insert_exited(*old(self), *final(self), commit, rc),
    {
        let mut rc: Option<Recalc> = None;
        if commit {
            let text = self.edit_buffer.clone();
            rc = self.sheet.set_cell(self.cursor_row, self.cursor_col, text);
            self.status_message = "Cell updated".to_owned();
        } else {
            self.status_message = "Insert canceled".to_owned();
        }
        self.mode = Mode::Visual;
        self.edit_buffer = String::new();
        self.edit_cursor_idx = 0;
        rc
    }

    // -------------------------------------------------------------------------
    // Insert mode
    // -------------------------------------------------------------------------

    /// The edit buffer and edit cursor after an editing key of Insert mode.
    pub open spec fn edit_step(buffer: Seq<char>, idx: nat, key: Key) -> (Seq<char>, nat) {
        match key {
            Key::Left => (buffer, if idx > 0 { (idx - 1) as nat } else { idx }),
            Key::Right => (buffer, if idx < buffer.len() { idx + 1 } else { idx }),
            Key::Home => (buffer, 0),
            Key::End => (buffer, buffer.len()),
            Key::Char(c) => (buffer.insert(idx as int, c), idx + 1),
            Key::Backspace => if idx > 0 {
                (buffer.remove(idx - 1), (idx - 1) as nat)
            } else {
                (buffer, idx)
            },
            Key::Delete => if idx < buffer.len() { (buffer.remove(idx as int), idx) } else { (buffer, idx) },
            _ => (buffer, idx),
        }
    }

    /// The key commits the edit buffer.
    pub open spec fn commits(key: Key) -> bool {
        key == Key::Enter || key == Key::F(2)
    }

    /// `new` is `old` after an Insert-mode key: Enter or F2 commits, Esc discards, the
    /// others edit the buffer.
    pub open spec fn insert_key_handled(old: App, new: App, key: Key, rc: Option<Recalc>) -> bool {
        if App::commits(key) {
            App::insert_exited(old, new, true, rc)
        } else if key == Key::Esc {
            App::insert_exited(old, new, false, rc)
        } else {
            &&& rc is None
            &&& (new.edit_buffer@, new.edit_cursor_idx as nat) == App::edit_step(old.edit_buffer@, old.edit_cursor_idx as nat, key)
            &&& new == (App { edit_buffer: new.edit_buffer, edit_cursor_idx: new.edit_cursor_idx, ..old })
        }
    }

    /// Handles a key of Insert mode (the modal input overlay).
    pub fn handle_insert_input(&mut self, key: Key) -> (rc: Option<Recalc>)
        requires
            old(self).wf(),
            App::commits(key) ==> old(self).buffer_fits(),
        ensures
            final(self).wf(),
            App::insert_key_handled(*old(self), *final(self), key, rc),
    {
        match key {
            Key::Enter => self.exit_insert_mode(true),
            Key::F(n) => {
                if n == 2 {
                    self.exit_insert_mode(true)
                } else {
                    None
                }
            },
            Key::Esc => self.exit_insert_mode(false),
            Key::Left => {
                if self.edit_cursor_idx > 0 {
                    self.edit_cursor_idx = self.edit_cursor_idx - 1;
                }
                None
            },
            Key::Right => {
                if self.edit_cursor_idx < self.edit_buffer.as_str().unicode_len() {
                    self.edit_cursor_idx = self.edit_cursor_idx + 1;
                }
                None
            },
            Key::Home => {
                self.edit_cursor_idx = 0;
                None
            },
            Key::End => {
                self.edit_cursor_idx = self.edit_buffer.as_str().unicode_len();
                None
            },
            Key::Char(c) => {
                let mut cs = chars_of(self.edit_buffer.as_str());
                cs.insert(self.edit_cursor_idx, c);
                let n = cs.len();
                self.edit_buffer = string_of(&cs);
                proof {
                    assert(self.edit_cursor_idx + 1 <= n);
                }
                self.edit_cursor_idx = self.edit_cursor_idx + 1;
                None
            },
            Key::Backspace => {
                if self.edit_cursor_idx > 0 {
                    self.edit_cursor_idx = self.edit_cursor_idx - 1;
                    let mut cs = chars_of(self.edit_buffer.as_str());
                    cs.remove(self.edit_cursor_idx);
                    self.edit_buffer = string_of(&cs);
                }
                None
            },
            Key::Delete => {
                if self.edit_cursor_idx < self.edit_buffer.as_str().unicode_len() {
                    let mut cs = chars_of(self.edit_buffer.as_str());
                    cs.remove(self.edit_cursor_idx);
                    self.edit_buffer = string_of(&cs);
                }
                None
            },
            _ => None,
        }
    }

    // -------------------------------------------------------------------------
    // Cursor and viewport
    // -------------------------------------------------------------------------

    /// A move in direction `d` keeps its arithmetic within `usize`: forward
    /// moves need a non-empty axis and a target that fits in `usize`.
    pub open spec fn can_move(&self, d: Direction) -> bool {
        match d {
            Direction::Vertical(delta) => delta >= 0 ==> self.sheet.rows() >= 1 && self.cursor_row + delta <= usize::MAX,
            Direction::Horizontal(delta) => delta >= 0 ==> self.sheet.cols() >= 1 && self.cursor_col + delta <= usize::MAX,
        }
    }

    /// `old` with the cursor moved in direction `d`, stopping at the edges of the grid.
    pub open spec fn cursor_moved(old: App, d: Direction) -> App {
        match d {
            Direction::Vertical(delta) => App { cursor_row: moved_to(old.cursor_row, delta, old.sheet.rows()), ..old },
            Direction::Horizontal(delta) => App { cursor_col: moved_to(old.cursor_col, delta, old.sheet.cols()), ..old },
        }
    }

    /// `new` is `old` scrolled so that the cursor is inside the viewport of `old`'s terminal
    /// size; unchanged when that viewport shows no whole cell.
    pub open spec fn viewport_adjusted(old: App, new: App) -> bool {
        let (rows, cols) = viewport_area(old.grid_config, old.terminal_size.0, old.terminal_size.1);
        if rows == 0 || cols == 0 {
            new == old
        } else {
            new == (App {
                scroll_row: scroll_to(old.scroll_row, old.cursor_row, rows),
                scroll_col: scroll_to(old.scroll_col, old.cursor_col, cols),
                ..old
            })
        }
    }

    /// Moves the cursor, stopping at the edges of the grid, and scrolls to keep it in view.
    pub fn move_cursor(&mut self, direction: Direction)
        requires
            old(self).wf(),
            old(self).can_move(direction),
        ensures
            final(self).wf(),
            App::viewport_adjusted(App::cursor_moved(*old(self), direction), *final(self)),
    {
        match direction {
            Direction::Vertical(delta) => {
                self.cursor_row = step_axis(self.cursor_row, delta, self.sheet.max_rows());
            },
            Direction::Horizontal(delta) => {
                self.cursor_col = step_axis(self.cursor_col, delta, self.sheet.max_cols());
            },
        }
        self.adjust_viewport();
    }

    /// Moves the cursor to A1 and scrolls to the top left.
    pub fn move_to_start(&mut self)
        requires
            old(self).wf(),
        ensures
            final(self).wf(),
            *final(self) == (App { cursor_row: 0, cursor_col: 0, scroll_row: 0, scroll_col: 0, ..*old(self) }),
    {
        self.cursor_row = 0;
        self.cursor_col = 0;
        self.scroll_row = 0;
        self.scroll_col = 0;
    }

    /// Moves the cursor to the first column of its row.
    pub fn move_to_start_line(&mut self)
        requires
            old(self).wf(),
        ensures
            final(self).wf(),
            *final(self) == (App { cursor_col: 0, scroll_col: 0, ..*old(self) }),
    {
        self.cursor_col = 0;
        self.scroll_col = 0;
    }

    /// The last column of the grid, 0 when it has none.
    pub open spec fn last_col(app: App) -> usize {
        if app.sheet.cols() >= 1 { (app.sheet.cols() - 1) as usize } else { 0 }
    }

    /// Moves the cursor to the last column of its row and scrolls to keep it in view.
    pub fn move_to_end_line(&mut self)
        requires
            old(self).wf(),
        ensures
            final(self).wf(),
            App::viewport_adjusted(App { cursor_col: App::last_col(*old(self)), ..*old(self) }, *final(self)),
    {
        let cols = self.sheet.max_cols();
        self.cursor_col = if cols >= 1 { cols - 1 } else { 0 };
        self.adjust_viewport();
    }

    /// Moves the cursor to the first row of its column.
    pub fn move_to_start_of_col(&mut self)
        requires
            old(self).wf(),
        ensures
            final(self).wf(),
            *final(self) == (App { cursor_row: 0, scroll_row: 0, ..*old(self) }),
    {
        self.cursor_row = 0;
        self.scroll_row = 0;
    }

    /// Scrolls so that the cursor is inside the viewport of the current terminal size.
    pub fn adjust_viewport(&mut self)
        requires
            old(self).wf(),
        ensures
            final(self).wf(),
            App::viewport_adjusted(*old(self), *final(self)),
    {
        let (term_width, term_height) = self.terminal_size;
        let config = self.grid_config;
        let visible_cols: usize = if term_width > config.header_offset_x {
            ((term_width - config.header_offset_x) / config.cell_width) as usize
        } else {
            0
        };
        let grid_height: u16 = if term_height >= 1 { term_height - 1 } else { 0 };
        let visible_rows: usize = if grid_height > config.header_offset_y {
            ((grid_height - config.header_offset_y) / config.cell_height) as usize
        } else {
            0
        };
        if visible_rows == 0 || visible_cols == 0 {
            return;
        }
        self.scroll_row = scroll_axis(self.scroll_row, self.cursor_row, visible_rows);
        self.scroll_col = scroll_axis(self.scroll_col, self.cursor_col, visible_cols);
    }

    // -------------------------------------------------------------------------
    // Mouse
    // -------------------------------------------------------------------------

    /// The cell under terminal position (x, y), if the position is on a cell of the grid.
    pub open spec fn click_target(&self, x: u16, y: u16) -> Option<(usize, usize)> {
        let cfg = self.grid_config;
        if x >= cfg.header_offset_x && y >= cfg.header_offset_y {
            let row = self.scroll_row + (y - cfg.header_offset_y) / cfg.cell_height as int;
            let col = self.scroll_col + (x - cfg.header_offset_x) / cfg.cell_width as int;
            if row < self.sheet.rows() && col < self.sheet.cols() {
                Some((row as usize, col as usize))
            } else {
                None
            }
        } else {
            None
        }
    }

    /// A click at time `now` on `target` follows a single click on the same cell by at most
    /// the double-click time (a clock going backwards counts as no time).
    pub open spec fn is_double_click(&self, target: (usize, usize), now: u64) -> bool {
        match (self.last_click_time, self.last_clicked_cell) {
            (Some(t), Some(cell)) => (if now >= t { now - t } else { 0 }) <= DOUBLE_CLICK_NANOS && cell == target,
            _ => false,
        }
    }

    /// `new` is `old` after a left click at (x, y) at time `now`: off the grid nothing
    /// changes; on a cell the cursor goes there, and a double click enters Insert mode with
    /// the cell's text and forgets the clicks, while a single click is remembered.
    pub open spec fn clicked(old: App, new: App, x: u16, y: u16, now: u64) -> bool {
        match old.click_target(x, y) {
            None => new == old,
            Some(target) => {
                let moved = App { cursor_row: target.0, cursor_col: target.1, ..old };
                if old.is_double_click(target, now) {
                    &&& new.last_click_time is None
                    &&& new.last_clicked_cell is None
                    &&& App::insert_entered(moved, App {
                        last_click_time: old.last_click_time,
                        last_clicked_cell: old.last_clicked_cell,
                        ..new
                    }, moved.current_text())
                } else {
                    new == (App { last_click_time: Some(now), last_clicked_cell: Some(target), ..moved })
                }
            },
        }
    }

    /// Handles a left click at terminal position (mouse_x, mouse_y), `now` being the time
    /// in nanoseconds on the caller's monotonic clock.
    pub fn handle_mouse_left_click(&mut self, mouse_x: u16, mouse_y: u16, now: u64)
        requires
            old(self).wf(),
        ensures
            final(self).wf(),
            App::clicked(*old(self), *final(self), mouse_x, mouse_y, now),
    {
        let config = self.grid_config;
        if mouse_x >= config.header_offset_x && mouse_y >= config.header_offset_y {
            let relative_x = mouse_x - config.header_offset_x;
            let relative_y = mouse_y - config.header_offset_y;
            let visible_col = (relative_x / config.cell_width) as usize;
            let visible_row = (relative_y / config.cell_height) as usize;
            let rows = self.sheet.max_rows();
            let cols = self.sheet.max_cols();
            if self.scroll_row < rows && visible_row < rows - self.scroll_row && self.scroll_col < cols
                && visible_col < cols - self.scroll_col {
                let target_row = self.scroll_row + visible_row;
                let target_col = self.scroll_col + visible_col;
                let is_double_click = match (self.last_click_time, self.last_clicked_cell) {
                    (Some(last_time), Some((last_row, last_col))) => {
                        let elapsed: u64 = if now >= last_time { now - last_time } else { 0 };
                        elapsed <= DOUBLE_CLICK_NANOS && last_row == target_row && last_col == target_col
                    },
                    _ => false,
                };
                self.cursor_row = target_row;
                self.cursor_col = target_col;
                if is_double_click {
                    self.enter_insert_mode(None);
                    self.last_click_time = None;
                    self.last_clicked_cell = None;
                } else {
                    self.last_click_time = Some(now);
                    self.last_clicked_cell = Some((target_row, target_col));
                }
            }
        }
    }

    // -------------------------------------------------------------------------
    // Dispatch
    // -------------------------------------------------------------------------

    /// The action can be carried out with its arithmetic within bounds.
    pub open spec fn can_perform(&self, a: Action) -> bool {
        match a {
            Action::Move(d) => self.can_move(d),
            Action::Edit(key) => App::commits(key) ==> self.buffer_fits(),
            _ => true,
        }
    }

    /// Whether [`App::perform`] can carry out `a`.
    pub fn performable(&self, a: Action) -> (b: bool)
        requires
            self.wf(),
        ensures
            b == self.can_perform(a),
    {
        match a {
            Action::Move(Direction::Vertical(delta)) => {
                delta < 0 || (self.sheet.max_rows() >= 1 && self.cursor_row <= usize::MAX - (delta as usize))
            },
            Action::Move(Direction::Horizontal(delta)) => {
                delta < 0 || (self.sheet.max_cols() >= 1 && self.cursor_col <= usize::MAX - (delta as usize))
            },
            Action::Edit(key) => {
                let commits = match key {
                    Key::Enter => true,
                    Key::F(n) => n == 2,
                    _ => false,
                };
                if commits && self.cursor_row < self.sheet.max_rows() && self.cursor_col < self.sheet.max_cols() {
                    crate::formula::text_fits_exec(self.edit_buffer.as_str())
                } else {
                    true
                }
            },
            _ => true,
        }
    }

    /// `new` and the effect `e` are what carrying out `a` on `old` gives.
    pub open spec fn performed(old: App, new: App, a: Action, e: Effect) -> bool {
        match a {
            Action::Nothing => new == old && e is Nothing,
            Action::Quit => new == (App { should_quit: true, ..old }) && e is Nothing,
            Action::Save => new == old && e is Save,
            Action::MoveToStart => new == (App { cursor_row: 0, cursor_col: 0, scroll_row: 0, scroll_col: 0, ..old })
                && e is Nothing,
            Action::MoveToStartOfColumn => new == (App { cursor_row: 0, scroll_row: 0, ..old }) && e is Nothing,
            Action::MoveToStartOfLine => new == (App { cursor_col: 0, scroll_col: 0, ..old }) && e is Nothing,
            Action::MoveToEndOfLine => App::viewport_adjusted(App { cursor_col: App::last_col(old), ..old }, new)
                && e is Nothing,
            Action::Move(d) => App::viewport_adjusted(App::cursor_moved(old, d), new) && e is Nothing,
            Action::Erase(x) => match erase_plan(x, old.cursor_row, old.cursor_col, old.sheet.rows(), old.sheet.cols()) {
                None => new == old && e is Nothing,
                Some(cl) => {
                    &&& Spreadsheet::block_cleared(old.sheet, new.sheet, cl.top, cl.bottom, cl.left, cl.right)
                    &&& App::viewport_adjusted(App { sheet: new.sheet, cursor_row: cl.row, cursor_col: cl.col, ..old }, new)
                    &&& e matches Effect::RecalculateEach(v) && v.len() == (cl.bottom - cl.top) * (cl.right - cl.left)
                        && forall|k: int| 0 <= k < v.len() ==> !(#[trigger] v@[k]).circular
                            && forall|i: int| 0 <= i < v@[k].order.len() ==> new.sheet.in_grid(#[trigger] v@[k].order@[i])
                },
            },
            Action::DeleteCell => {
                &&& e !is Save
                &&& Spreadsheet::cell_written(old.sheet, new.sheet, old.cursor_row, old.cursor_col, Seq::<char>::empty(),
                    effect_recalc(e))
                &&& new.status_message@ == "Cell deleted"@
                &&& new == (App { sheet: new.sheet, status_message: new.status_message, ..old })
            },
            Action::EnterVisual => {
                &&& new.status_message@ == visual_status()
                &&& new == (App { mode: Mode::Visual, status_message: new.status_message, ..old })
                &&& e is Nothing
            },
            Action::ExitVisual => {
                &&& new.status_message@ == normal_status()
                &&& new == (App { mode: Mode::Normal, status_message: new.status_message, ..old })
                &&& e is Nothing
            },
            Action::EnterInsert(seed) => App::insert_entered(old, new, seed_text(old, seed)) && e is Nothing,
            Action::Edit(key) => e !is Save && App::insert_key_handled(old, new, key, effect_recalc(e)),
        }
    }

    fn recalculate(rc: Option<Recalc>) -> (e: Effect)
        ensures
            e !is Save,
            effect_recalc(e) == rc,
    {
        match rc {
            Some(r) => Effect::Recalculate(r),
            None => Effect::Nothing,
        }
    }

    /// Carries out an action.
    pub fn perform(&mut self, a: Action) -> (e: Effect)
        requires
            old(self).wf(),
            old(self).can_perform(a),
        ensures
            final(self).wf(),
            App::performed(*old(self), *final(self), a, e),
    {
        match a {
            Action::Nothing => Effect::Nothing,
            Action::Quit => {
                self.should_quit = true;
                Effect::Nothing
            },
            Action::Save => Effect::Save,
            Action::MoveToStart => {
                self.move_to_start();
                Effect::Nothing
            },
            Action::MoveToStartOfColumn => {
                self.move_to_start_of_col();
                Effect::Nothing
            },
            Action::MoveToStartOfLine => {
                self.move_to_start_line();
                Effect::Nothing
            },
            Action::MoveToEndOfLine => {
                self.move_to_end_line();
                Effect::Nothing
            },
            Action::Move(d) => {
                self.move_cursor(d);
                Effect::Nothing
            },
            Action::Erase(x) => {
                match erase_plan_of(x, self.cursor_row, self.cursor_col, self.sheet.max_rows(), self.sheet.max_cols()) {
                    None => Effect::Nothing,
                    Some(cl) => {
                        let recalcs = self.sheet.clear_block(cl.top, cl.bottom, cl.left, cl.right);
                        self.cursor_row = cl.row;
                        self.cursor_col = cl.col;
                        self.adjust_viewport();
                        Effect::RecalculateEach(recalcs)
                    },
                }
            },
            Action::DeleteCell => {
                let rc = self.delete_cell();
                App::recalculate(rc)
            },
            Action::EnterVisual => {
                self.enter_visual_mode();
                Effect::Nothing
            },
            Action::ExitVisual => {
                self.exit_visual_mode();
                Effect::Nothing
            },
            Action::EnterInsert(seed) => {
                match seed {
                    Seed::Blank => self.enter_insert_mode(Some(String::new())),
                    Seed::Formula => {
                        let mut s = String::new();
                        push_char(&mut s, '=');
                        proof {
                            assert(Seq::<char>::empty().push('=') == seq!['=']);
                        }
                        self.enter_insert_mode(Some(s));
                    },
                    Seed::Typed(c) => {
                        let mut s = String::new();
                        push_char(&mut s, c);
                        proof {
                            assert(Seq::<char>::empty().push(c) == seq![c]);
                        }
                        self.enter_insert_mode(Some(s));
                    },
                    Seed::CurrentCell => self.enter_insert_mode(None),
                }
                Effect::Nothing
            },
            Action::Edit(key) => {
                let rc = self.handle_insert_input(key);
                App::recalculate(rc)
            },
        }
    }

    /// Carries out `a` when its arithmetic stays within bounds (see [`App::performable`]);
    /// otherwise changes nothing and gives `None`.
    pub fn try_perform(&mut self, a: Action) -> (e: Option<Effect>)
        requires
            old(self).wf(),
        ensures
            final(self).wf(),
            e is None <==> !old(self).can_perform(a),
            e is None ==> *final(self) == *old(self),
            e matches Some(e) ==> App::performed(*old(self), *final(self), a, e),
    {
        if !self.performable(a) {
            return None;
        }
        Some(self.perform(a))
    }

    /// The parser state and the action that a key pressed with `mods` gives: in Normal mode
    /// as [`normal_key_step`] says, in the other modes as [`key_action`] says, the parser
    /// left as it is.
    pub open spec fn key_step(&self, key: Key, mods: Modifiers) -> (PendingInput, Action) {
        if self.mode == Mode::Normal {
            normal_key_step(self.normal@, key, mods)
        } else {
            (self.normal@, key_action(self.mode, key, mods))
        }
    }

    /// Handles a key pressed with `mods`: Insert mode edits, Visual mode navigates with the
    /// arrows and types into a cell, Normal mode assembles commands from the character keys
    /// (counted moves, `0`, `$`, mode changes, save, quit) and navigates with the arrows.
    /// The action is carried out when its arithmetic stays within bounds; otherwise only the
    /// parser moves on and `None` comes back.
    pub fn handle_key(&mut self, key: Key, mods: Modifiers) -> (e: Option<Effect>)
        requires
            old(self).wf(),
        ensures
            final(self).wf(),
            final(self).normal@ == old(self).key_step(key, mods).0,
            e is None <==> !old(self).can_perform(old(self).key_step(key, mods).1),
            e is None ==> *final(self) == (App { normal: final(self).normal, ..*old(self) }),
            e matches Some(e) ==> App::performed(
                App { normal: final(self).normal, ..*old(self) },
                *final(self),
                old(self).key_step(key, mods).1,
                e,
            ),
    {
        let a = if self.mode == Mode::Normal {
            match key {
                Key::Char(c) => {
                    if self.normal.accepts(c) {
                        match self.normal.process_char(c) {
                            Some(cmd) => command_action_of(&cmd),
                            None => Action::Nothing,
                        }
                    } else {
                        self.normal.reset();
                        Action::Nothing
                    }
                },
                Key::Esc => {
                    self.normal.reset();
                    Action::Nothing
                },
                _ => {
                    self.normal.reset();
                    action_for(Mode::Normal, key, mods)
                },
            }
        } else {
            action_for(self.mode, key, mods)
        };
        self.try_perform(a)
    }

    /// What a mouse event asks of the session, if anything beyond a click.
    pub open spec fn mouse_action(mode: Mode, ev: MouseInput) -> Action {
        match ev {
            MouseInput::ScrollUp { control } => if mode == Mode::Insert {
                Action::Nothing
            } else if control {
                Action::Move(Direction::Horizontal(-1isize))
            } else {
                Action::Move(Direction::Vertical(-1isize))
            },
            MouseInput::ScrollDown { control } => if mode == Mode::Insert {
                Action::Nothing
            } else if control {
                Action::Move(Direction::Horizontal(1isize))
            } else {
                Action::Move(Direction::Vertical(1isize))
            },
            _ => Action::Nothing,
        }
    }

    /// Handles a mouse event at time `now` (nanoseconds on the caller's monotonic clock):
    /// a left click selects a cell in Normal and Visual mode, the wheel moves the cursor
    /// (sideways with Control) outside Insert mode.
    pub fn handle_mouse(&mut self, ev: MouseInput, now: u64)
        requires
            old(self).wf(),
            old(self).can_perform(App::mouse_action(old(self).mode, ev)),
        ensures
            final(self).wf(),
            match ev {
                MouseInput::LeftDown { column, row } => if old(self).mode != Mode::Insert {
                    App::clicked(*old(self), *final(self), column, row, now)
                } else {
                    *final(self) == *old(self)
                },
                _ => App::performed(*old(self), *final(self), App::mouse_action(old(self).mode, ev), Effect::Nothing),
            },
    {
        match ev {
            MouseInput::LeftDown { column, row } => {
                if self.mode == Mode::Normal || self.mode == Mode::Visual {
                    self.handle_mouse_left_click(column, row, now);
                }
            },
            MouseInput::ScrollUp { control } => {
                if self.mode != Mode::Insert {
                    if control {
                        self.move_cursor(Direction::Horizontal(-1isize));
                    } else {
                        self.move_cursor(Direction::Vertical(-1isize));
                    }
                }
            },
            MouseInput::ScrollDown { control } => {
                if self.mode != Mode::Insert {
                    if control {
                        self.move_cursor(Direction::Horizontal(1isize));
                    } else {
                        self.move_cursor(Direction::Vertical(1isize));
                    }
                }
            },
            MouseInput::Other => {},
        }
    }

    // -------------------------------------------------------------------------
    // Saving
    // -------------------------------------------------------------------------

    /// Starts saving: the file the sheet was loaded from and the CSV bytes to write there
    /// (see [`Spreadsheet::csv_bytes`]); `None`, with a status saying so, when the sheet came
    /// from no file.
    pub fn save_spreadsheet(&mut self) -> (r: Option<(String, Vec<u8>)>)
        requires
            old(self).wf(),
            old(self).sheet.path() is Some ==> old(self).sheet.rows() >= 1 && old(self).sheet.cols() >= 1,
        ensures
            final(self).wf(),
            match r {
                Some((path, bytes)) => {
                    &&& old(self).sheet.path() == Some(path@)
                    &&& bytes@ == csv_written(old(self).sheet.saved_records())
                    &&& *final(self) == *old(self)
                },
                None => {
                    &&& old(self).sheet.path() is None
                    &&& final(self).status_message@ == "No file path associated with spreadsheet"@
                    &&& *final(self) == (App { status_message: final(self).status_message, ..*old(self) })
                },
            },
    {
        match self.sheet.loaded_path() {
            Some(path) => {
                let path = path.clone();
                let bytes = self.sheet.csv_bytes();
                Some((path, bytes))
            },
            None => {
                self.status_message = "No file path associated with spreadsheet".to_owned();
                None
            },
        }
    }

    /// Records how saving to `path` went: `None` when it succeeded, else the error's text.
    pub fn save_finished(&mut self, path: &str, error: Option<String>)
        ensures
            final(self).status_message@ == match error {
                None => "Saved successfully to "@ + path@,
                Some(e) => "Error saving: "@ + e@,
            },
            *final(self) == (App { status_message: final(self).status_message, ..*old(self) }),
    {
        match error {
            None => {
                let mut m = "Saved successfully to ".to_owned();
                m.append(path);
                self.status_message = m;
            },
            Some(e) => {
                let mut m = "Error saving: ".to_owned();
                m.append(e.as_str());
                self.status_message = m;
            },
        }
    }

    // -------------------------------------------------------------------------
    // Cell operations
    // -------------------------------------------------------------------------

    /// Clears the cursor's cell.
    pub fn delete_cell(&mut self) -> (rc: Option<Recalc>)
        requires
            old(self).wf(),
        ensures
            final(self).wf(),
            Spreadsheet::cell_written(old(self).sheet, final(self).sheet, old(self).cursor_row, old(self).cursor_col,
                Seq::<char>::empty(), rc),
            final(self).status_message@ == "Cell deleted"@,
            *final(self) == (App { sheet: final(self).sheet, status_message: final(self).status_message, ..*old(self) }),
    {
        proof {
            assert(trimmed(Seq::<char>::empty()) == Seq::<char>::empty());
            assert(text_fits(Seq::<char>::empty()));
        }
        let rc = self.sheet.set_cell(self.cursor_row, self.cursor_col, String::new());
        self.status_message = "Cell deleted".to_owned();
        rc
    }
}

/// `d` with a motion, from the cursor on (r, c): `h`/`b` empty the `n` cells left of the
/// cursor (as many as there are) and the cursor goes to the leftmost; `l`/`w` the `n` cells
/// to its right; `j` the cursor's row and the `n` rows below it, whole; `k` the `n` rows
/// above and the cursor's row, the cursor going to the topmost; `0` the cells before the
/// cursor, the cursor going to column A; `$` the cells from the cursor to the end of the row.
/// Any other cell keeps its text.
pub proof fn law_row_delete_empties(motion: Motion, n: usize, r: usize, c: usize, rows: nat, cols: nat, i: int, j: int)
    requires
        r < rows <= usize::MAX,
        c < cols <= usize::MAX,
        0 <= i < rows,
        0 <= j < cols,
    ensures
        erase_plan(Erase::Delete { motion, count: n }, r, c, rows, cols) is Some,
        ({
            let cl = erase_plan(Erase::Delete { motion, count: n }, r, c, rows, cols)->0;
            &&& Spreadsheet::in_block(i, j, cl.top, cl.bottom, cl.left, cl.right) <==> match motion {
                Motion::Left | Motion::WordBack => i == r && c - n <= j < c,
                Motion::Right | Motion::WordForward => i == r && c < j <= c + n,
                Motion::Down => r <= i <= r + n,
                Motion::Up => r - n <= i <= r,
                Motion::StartOfRow => i == r && j < c,
                Motion::EndOfRow => i == r && c <= j,
            }
            &&& (cl.row as int, cl.col as int) == match motion {
                Motion::Left | Motion::WordBack => (r as int, if c >= n { c - n } else { 0 }),
                Motion::Up => (if r >= n { r - n } else { 0 }, c as int),
                Motion::StartOfRow => (r as int, 0),
                _ => (r as int, c as int),
            }
        }),
{
}

/// `dd` with a count `n` empties the `n` whole rows from the cursor's down (as many as
/// there are), the cursor staying where it is.
pub proof fn law_delete_rows_empties(n: usize, r: usize, c: usize, rows: nat, cols: nat, i: int, j: int)
    requires
        r < rows <= usize::MAX,
        c < cols <= usize::MAX,
        0 <= i < rows,
        0 <= j < cols,
    ensures
        erase_plan(Erase::DeleteRows { count: n }, r, c, rows, cols) is Some,
        ({
            let cl = erase_plan(Erase::DeleteRows { count: n }, r, c, rows, cols)->0;
            &&& Spreadsheet::in_block(i, j, cl.top, cl.bottom, cl.left, cl.right) <==> r <= i < r + n
            &&& cl.row == r && cl.col == c
        }),
{
}

/// `gd` with a motion mirrors `d` on the other axis: `j` empties the `n` cells below the
/// cursor in its column; `k` the `n` cells above it, the cursor going to the topmost; `l`/`w`
/// the `n` whole columns to the right; `h`/`b` the `n` whole columns to the left, the cursor
/// going to the leftmost; `$` the column from the cursor down; `0` the column from the top to
/// the cursor, the cursor going to the first row.
pub proof fn law_column_delete_empties(motion: Motion, n: usize, r: usize, c: usize, rows: nat, cols: nat, i: int,
    j: int)
    requires
        r < rows <= usize::MAX,
        c < cols <= usize::MAX,
        0 <= i < rows,
        0 <= j < cols,
    ensures
        erase_plan(Erase::ColumnDelete { motion, count: n }, r, c, rows, cols) is Some,
        ({
            let cl = erase_plan(Erase::ColumnDelete { motion, count: n }, r, c, rows, cols)->0;
            &&& Spreadsheet::in_block(i, j, cl.top, cl.bottom, cl.left, cl.right) <==> match motion {
                Motion::Down => j == c && r < i <= r + n,
                Motion::Up => j == c && r - n <= i < r,
                Motion::Right | Motion::WordForward => c < j <= c + n,
                Motion::Left | Motion::WordBack => c - n <= j < c,
                Motion::EndOfRow => j == c && r <= i,
                Motion::StartOfRow => j == c && i <= r,
            }
            &&& (cl.row as int, cl.col as int) == match motion {
                Motion::Up => (if r >= n { r - n } else { 0 }, c as int),
                Motion::Left | Motion::WordBack => (r as int, if c >= n { c - n } else { 0 }),
                Motion::StartOfRow => (0, c as int),
                _ => (r as int, c as int),
            }
        }),
{
}

/// `gdd` with a count `n` empties the `n` whole columns from the cursor's rightwards (as
/// many as there are), the cursor staying where it is.
pub proof fn law_delete_columns_empties(n: usize, r: usize, c: usize, rows: nat, cols: nat, i: int, j: int)
    requires
        r < rows <= usize::MAX,
        c < cols <= usize::MAX,
        0 <= i < rows,
        0 <= j < cols,
    ensures
        erase_plan(Erase::DeleteColumns { count: n }, r, c, rows, cols) is Some,
        ({
            let cl = erase_plan(Erase::DeleteColumns { count: n }, r, c, rows, cols)->0;
            &&& Spreadsheet::in_block(i, j, cl.top, cl.bottom, cl.left, cl.right) <==> c <= j < c + n
            &&& cl.row == r && cl.col == c
        }),
{
}

/// A move command of Normal mode moves by its count in its direction (`h`/`b` left, `l`/`w`
/// right, `k` up, `j` down); `0` and `$` go to the first and the last column of the row.
pub proof fn law_move_commands_move_by_their_count(motion: Motion, n: usize)
    requires
        n <= isize::MAX,
    ensures
        command_action(CommandView::Move { motion, count: n }) == match motion {
            Motion::Left | Motion::WordBack => Action::Move(Direction::Horizontal((-n) as isize)),
            Motion::Right | Motion::WordForward => Action::Move(Direction::Horizontal(n as isize)),
            Motion::Up => Action::Move(Direction::Vertical((-n) as isize)),
            Motion::Down => Action::Move(Direction::Vertical(n as isize)),
            Motion::StartOfRow => Action::MoveToStartOfLine,
            Motion::EndOfRow => Action::MoveToEndOfLine,
        },
{
}

/// Outside Insert mode the arrow keys move the cursor one cell in their direction, whatever
/// the modifiers: Up one row up and Down one row down, Left one column left and Right one
/// column right, stopping at the edges of the grid.
pub proof fn law_arrow_keys_move_one_cell(app: App, mods: Modifiers)
    requires
        app.wf(),
        app.mode != Mode::Insert,
        app.sheet.rows() >= 1,
        app.sheet.cols() >= 1,
    ensures
        app.key_step(Key::Up, mods).1 == Action::Move(Direction::Vertical(-1isize)),
        app.key_step(Key::Down, mods).1 == Action::Move(Direction::Vertical(1isize)),
        app.key_step(Key::Left, mods).1 == Action::Move(Direction::Horizontal(-1isize)),
        app.key_step(Key::Right, mods).1 == Action::Move(Direction::Horizontal(1isize)),
        App::cursor_moved(app, Direction::Vertical(-1isize)).cursor()
            == ((if app.cursor_row > 0 { app.cursor_row - 1 } else { 0 }) as usize, app.cursor_col),
        App::cursor_moved(app, Direction::Vertical(1isize)).cursor()
            == ((if app.cursor_row + 1 < app.sheet.rows() { app.cursor_row + 1 } else { app.cursor_row as int }) as usize,
                app.cursor_col),
        App::cursor_moved(app, Direction::Horizontal(-1isize)).cursor()
            == (app.cursor_row, (if app.cursor_col > 0 { app.cursor_col - 1 } else { 0 }) as usize),
        App::cursor_moved(app, Direction::Horizontal(1isize)).cursor()
            == (app.cursor_row,
                (if app.cursor_col + 1 < app.sheet.cols() { app.cursor_col + 1 } else { app.cursor_col as int }) as usize),
{
}

/// Outside Insert mode the Home keys jump: Control+Home to A1, Shift+Home to the first row
/// of the cursor's column, Home alone to column A of its row; in Normal mode `$` jumps to the
/// last column of the row. Nothing else about the session changes but the scroll position.
pub proof fn law_jumps(app: App, mods: Modifiers, new: App, e: Effect)
    requires
        app.wf(),
        app.mode != Mode::Insert,
    ensures
        mods == Modifiers::Control && App::performed(app, new, app.key_step(Key::Home, mods).1, e)
            ==> new.cursor() == (0usize, 0usize),
        mods == Modifiers::Shift && App::performed(app, new, app.key_step(Key::Home, mods).1, e)
            ==> new.cursor() == (0usize, app.cursor_col),
        mods == Modifiers::Plain && App::performed(app, new, app.key_step(Key::Home, mods).1, e)
            ==> new.cursor() == (app.cursor_row, 0usize),
        App::performed(app, new, Action::MoveToEndOfLine, e) && app.sheet.cols() >= 1
            ==> new.cursor() == (app.cursor_row, (app.sheet.cols() - 1) as usize),
{
}

/// The mouse wheel moves the cursor one row (one column with Control held): up or left for
/// a turn up, down or right for a turn down; in Insert mode it does nothing.
pub proof fn law_wheel_moves_one_cell(mode: Mode, control: bool)
    ensures
        App::mouse_action(mode, MouseInput::ScrollUp { control }) == if mode == Mode::Insert {
            Action::Nothing
        } else if control {
            Action::Move(Direction::Horizontal(-1isize))
        } else {
            Action::Move(Direction::Vertical(-1isize))
        },
        App::mouse_action(mode, MouseInput::ScrollDown { control }) == if mode == Mode::Insert {
            Action::Nothing
        } else if control {
            Action::Move(Direction::Horizontal(1isize))
        } else {
            Action::Move(Direction::Vertical(1isize))
        },
{
}

/// A click lands on the cell drawn under it: cell (r, c) of the grid is selected exactly
/// when it is scrolled into view and the click falls in its rectangle on the screen, the
/// `(r - scroll_row)`-th cell row below the column headers and the `(c - scroll_col)`-th
/// cell column right of the row headers.
pub proof fn law_click_selects_the_cell_drawn_there(app: App, x: u16, y: u16, r: usize, c: usize)
    requires
        app.wf(),
        r < app.sheet.rows(),
        c < app.sheet.cols(),
    ensures
        app.click_target(x, y) == Some((r, c)) <==> {
            let cfg = app.grid_config;
            let (dr, dc) = (r - app.scroll_row, c - app.scroll_col);
            &&& app.scroll_row <= r
            &&& app.scroll_col <= c
            &&& cfg.header_offset_y + dr * cfg.cell_height <= y < cfg.header_offset_y + (dr + 1) * cfg.cell_height
            &&& cfg.header_offset_x + dc * cfg.cell_width <= x < cfg.header_offset_x + (dc + 1) * cfg.cell_width
        },
{
    let cfg = app.grid_config;
    let (h, w) = (cfg.cell_height as int, cfg.cell_width as int);
    let (dr, dc) = (r - app.scroll_row, c - app.scroll_col);
    if app.click_target(x, y) == Some((r, c)) {
        let (vy, vx) = (y - cfg.header_offset_y, x - cfg.header_offset_x);
        vstd::arithmetic::div_mod::lemma_fundamental_div_mod(vy, h);
        vstd::arithmetic::div_mod::lemma_fundamental_div_mod(vx, w);
        assert(vy / h >= 0 && vx / w >= 0) by (nonlinear_arith)
            requires
                vy >= 0,
                vx >= 0,
                h >= 1,
                w >= 1,
        {
        }
        app.sheet.lemma_dimensions_bounded();
        let row = app.scroll_row + vy / h;
        let col = app.scroll_col + vx / w;
        assert(0 <= row < app.sheet.rows() && 0 <= col < app.sheet.cols());
        assert((row as usize) as int == row && (col as usize) as int == col);
        assert(vy / h == dr);
        assert(vx / w == dc);
        assert(dr * h <= vy < (dr + 1) * h) by (nonlinear_arith)
            requires
                vy == h * (vy / h) + vy % h,
                0 <= vy % h < h,
                vy / h == dr,
        {
        }
        assert(dc * w <= vx < (dc + 1) * w) by (nonlinear_arith)
            requires
                vx == w * (vx / w) + vx % w,
                0 <= vx % w < w,
                vx / w == dc,
        {
        }
    }
    if app.scroll_row <= r && app.scroll_col <= c && cfg.header_offset_y + dr * h <= y < cfg.header_offset_y + (dr + 1) * h
        && cfg.header_offset_x + dc * w <= x < cfg.header_offset_x + (dc + 1) * w {
        assert(0 <= dr * h && 0 <= dc * w) by (nonlinear_arith)
            requires
                dr >= 0,
                dc >= 0,
                h >= 1,
                w >= 1,
        {
        }
        let (vy, vx) = (y - cfg.header_offset_y, x - cfg.header_offset_x);
        assert(vy - dr * h == vy - h * dr) by (nonlinear_arith);
        assert(vx - dc * w == vx - w * dc) by (nonlinear_arith);
        assert(0 <= vy - dr * h < h) by (nonlinear_arith)
            requires
                dr * h <= vy < (dr + 1) * h,
        {
        }
        assert(0 <= vx - dc * w < w) by (nonlinear_arith)
            requires
                dc * w <= vx < (dc + 1) * w,
        {
        }
        vstd::arithmetic::div_mod::lemma_fundamental_div_mod_converse(vy, h, dr, vy - h * dr);
        vstd::arithmetic::div_mod::lemma_fundamental_div_mod_converse(vx, w, dc, vx - w * dc);
    }
}

} // verus!
