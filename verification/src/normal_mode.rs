//! Normal-mode command parser for Vim-style key sequences.
//!
//! The grammar is `[count1] operator [count2] motion`. The parser is a state machine over
//! the sub-states `Idle`, `OperatorPending` (after `d`, `y` or `Y`), `GPrefix` (after `g`),
//! `GdOperatorPending` (after `gd`) and `GyOperatorPending` (after `gy`).
//!
//! Only character keys are fed here; the caller handles the others (Esc, arrows, ...)
//! and calls [`NormalModeState::reset`] as appropriate.
use vstd::prelude::*;
use crate::text::{decimal, digit_char, push_char, push_decimal};

verus! {

/// Motion directions used by operator commands and standalone navigation.
#[derive(Debug, Clone, Copy, PartialEq, Eq, Structural)]
pub enum Motion {
    Left,
    Right,
    Up,
    Down,
    /// `0` with no preceding count: the first column of the row.
    StartOfRow,
    /// `$`: the end of the row.
    EndOfRow,
    /// `w`: forward word, one step right in a spreadsheet.
    WordForward,
    /// `b`: back word, one step left in a spreadsheet.
    WordBack,
}

/// The three yank modes.
#[derive(Debug, Clone, Copy, PartialEq, Eq, Structural)]
pub enum YankKind {
    /// `y`: formula yank, absolute cell refs are rewritten to relative offsets.
    Relative,
    /// `Y`: value yank, stores the evaluated display value.
    Value,
    /// `gy`: raw yank, copies the cell content verbatim.
    Raw,
}

/// Which high-level operation was requested.
#[derive(Debug, Clone, Copy, PartialEq, Eq, Structural)]
pub enum Operator {
    Delete,
    Yank(YankKind),
}

/// Clipboard content produced by a yank operation.
#[derive(Debug, Clone)]
pub enum ClipboardContent {
    /// A horizontal slice of raw cell values from a single row.
    Cells(Vec<String>),
    /// A vertical slice of raw cell values from a single column; `row_offset` is the row
    /// the cursor was on at yank time.
    Column { cells: Vec<String>, row_offset: usize },
    /// One or more complete rows; `col_offset` is the column the cursor was on at yank time.
    Rows { rows: Vec<Vec<String>>, col_offset: usize },
}

/// A fully-resolved command ready for the application to execute.
#[derive(Debug, Clone)]
pub enum NormalCommand {
    /// Move the cursor using the given motion, repeated `count` times.
    Move { motion: Motion, count: usize },
    /// Apply a delete operation driven by `motion`, with the given effective count.
    Delete { motion: Motion, count: usize },
    /// Delete `count` complete rows starting at the cursor row (`dd`, `2dd`, ...).
    DeleteRow { count: usize },
    /// Yank (copy) driven by `motion`.
    Yank { motion: Motion, count: usize, kind: YankKind },
    /// Yank `count` complete rows starting at the cursor row (`yy`, `2yy`, ...).
    YankRow { count: usize, kind: YankKind },
    /// Paste before or after the cursor, shifting existing content, `count` times.
    Paste { before: bool, count: usize },
    /// Overwrite-paste: `before` starts at the cursor, otherwise at cursor + 1.
    OverwritePaste { before: bool, count: usize },
    /// Enter Visual mode.
    EnterVisualMode,
    /// Enter Insert mode: `None` loads the current cell's raw content, `Some(s)` seeds
    /// the buffer with `s`.
    EnterInsertMode(Option<String>),
    /// Save the spreadsheet.
    Save,
    /// Quit the application.
    Quit,
    /// Apply a column-axis delete driven by `motion` (`gd` + motion).
    ColDelete { motion: Motion, count: usize },
    /// Clear `count` complete columns starting at the cursor column (`gdd`, `2gdd`, ...).
    DeleteCol { count: usize },
    /// The accumulated state was cancelled.
    Reset,
    /// Undo the last `count` changes.
    Undo { count: usize },
}

/// What a [`NormalCommand`] says, with the seeded text of an Insert command as characters.
pub enum CommandView {
    Move { motion: Motion, count: usize },
    Delete { motion: Motion, count: usize },
    DeleteRow { count: usize },
    Yank { motion: Motion, count: usize, kind: YankKind },
    YankRow { count: usize, kind: YankKind },
    Paste { before: bool, count: usize },
    OverwritePaste { before: bool, count: usize },
    EnterVisualMode,
    EnterInsertMode(Option<Seq<char>>),
    Save,
    Quit,
    ColDelete { motion: Motion, count: usize },
    DeleteCol { count: usize },
    Reset,
    Undo { count: usize },
}

impl View for NormalCommand {
    type V = CommandView;

    open spec fn view(&self) -> CommandView {
        match *self {
            NormalCommand::Move { motion, count } => CommandView::Move { motion, count },
            NormalCommand::Delete { motion, count } => CommandView::Delete { motion, count },
            NormalCommand::DeleteRow { count } => CommandView::DeleteRow { count },
            NormalCommand::Yank { motion, count, kind } => CommandView::Yank { motion, count, kind },
            NormalCommand::YankRow { count, kind } => CommandView::YankRow { count, kind },
            NormalCommand::Paste { before, count } => CommandView::Paste { before, count },
            NormalCommand::OverwritePaste { before, count } => CommandView::OverwritePaste { before, count },
            NormalCommand::EnterVisualMode => CommandView::EnterVisualMode,
            NormalCommand::EnterInsertMode(s) => CommandView::EnterInsertMode(
                match s {
                    Some(t) => Some(t@),
                    None => None,
                },
            ),
            NormalCommand::Save => CommandView::Save,
            NormalCommand::Quit => CommandView::Quit,
            NormalCommand::ColDelete { motion, count } => CommandView::ColDelete { motion, count },
            NormalCommand::DeleteCol { count } => CommandView::DeleteCol { count },
            NormalCommand::Reset => CommandView::Reset,
            NormalCommand::Undo { count } => CommandView::Undo { count },
        }
    }
}

/// The view of an optional command.
pub open spec fn command_view(c: Option<NormalCommand>) -> Option<CommandView> {
    match c {
        Some(cmd) => Some(cmd@),
        None => None,
    }
}

/// The parser's sub-state.
#[derive(Debug, Clone, Copy, PartialEq, Eq, Structural)]
pub enum SubState {
    Idle,
    OperatorPending,
    /// `g` has been typed; waiting for the second character.
    GPrefix,
    /// `gd` has been typed; waiting for count2 and a motion.
    GdOperatorPending,
    /// `gy` has been typed; waiting for count2 and a motion (raw yank).
    GyOperatorPending,
}

/// The keys accumulated so far.
pub struct PendingInput {
    pub sub_state: SubState,
    /// Digits accumulated before the operator.
    pub count1: usize,
    /// The pending operator, if any.
    pub operator: Option<Operator>,
    /// Digits accumulated after the operator.
    pub count2: usize,
}

/// The clean state: no count, no operator.
pub open spec fn cleared() -> PendingInput {
    PendingInput { sub_state: SubState::Idle, count1: 0, operator: None, count2: 0 }
}

/// A count as typed, where none typed means 1.
pub open spec fn effective(c: usize) -> int {
    if c == 0 { 1 } else { c as int }
}

/// The count of a motion after an operator: count1 × count2, each defaulting to 1.
pub open spec fn total_count(p: PendingInput) -> int {
    effective(p.count1) * effective(p.count2)
}

/// The value of a digit character.
pub open spec fn digit_of(ch: char) -> int {
    ch as int - '0' as int
}

/// `ch` is one of `1`..`9`.
pub open spec fn is_nonzero_digit(ch: char) -> bool {
    '1' <= ch && ch <= '9'
}

/// The motion a character names after an operator.
pub open spec fn operator_motion(ch: char) -> Option<Motion> {
    if ch == 'h' { Some(Motion::Left) }
    else if ch == 'j' { Some(Motion::Down) }
    else if ch == 'k' { Some(Motion::Up) }
    else if ch == 'l' { Some(Motion::Right) }
    else if ch == 'w' { Some(Motion::WordForward) }
    else if ch == 'b' { Some(Motion::WordBack) }
    else if ch == '$' { Some(Motion::EndOfRow) }
    else { None }
}

/// The command an operator applies with a motion.
pub open spec fn operator_command(op: Operator, motion: Motion, count: usize) -> CommandView {
    match op {
        Operator::Delete => CommandView::Delete { motion, count },
        Operator::Yank(kind) => CommandView::Yank { motion, count, kind },
    }
}

/// Whether feeding `ch` in state `p` keeps every count within `usize`.
pub open spec fn fits(p: PendingInput, ch: char) -> bool {
    match p.sub_state {
        SubState::Idle => {
            &&& is_nonzero_digit(ch) ==> p.count1 * 10 + digit_of(ch) <= usize::MAX
            &&& ch == '0' ==> p.count1 * 10 <= usize::MAX
        },
        SubState::GPrefix => true,
        _ => {
            &&& is_nonzero_digit(ch) ==> p.count2 * 10 + digit_of(ch) <= usize::MAX
            &&& ch == '0' ==> p.count2 * 10 <= usize::MAX
            &&& (step_count2(p, ch) is None && pending_motion(ch) is Some) ==> total_count(p) <= usize::MAX
        },
    }
}

/// One step of the parser in the Idle state.
pub open spec fn step_idle(p: PendingInput, ch: char) -> (PendingInput, Option<CommandView>) {
    let c = effective(p.count1) as usize;
    if is_nonzero_digit(ch) {
        (PendingInput { count1: (p.count1 * 10 + digit_of(ch)) as usize, ..p }, None)
    } else if ch == '0' {
        if p.count1 > 0 {
            (PendingInput { count1: (p.count1 * 10) as usize, ..p }, None)
        } else {
            (cleared(), Some(CommandView::Move { motion: Motion::StartOfRow, count: 1 }))
        }
    } else if ch == 'h' {
        (cleared(), Some(CommandView::Move { motion: Motion::Left, count: c }))
    } else if ch == 'j' {
        (cleared(), Some(CommandView::Move { motion: Motion::Down, count: c }))
    } else if ch == 'k' {
        (cleared(), Some(CommandView::Move { motion: Motion::Up, count: c }))
    } else if ch == 'l' {
        (cleared(), Some(CommandView::Move { motion: Motion::Right, count: c }))
    } else if ch == 'w' {
        (cleared(), Some(CommandView::Move { motion: Motion::WordForward, count: c }))
    } else if ch == 'b' {
        (cleared(), Some(CommandView::Move { motion: Motion::WordBack, count: c }))
    } else if ch == '$' {
        (cleared(), Some(CommandView::Move { motion: Motion::EndOfRow, count: 1 }))
    } else if ch == 'd' {
        (PendingInput { sub_state: SubState::OperatorPending, operator: Some(Operator::Delete), ..p }, None)
    } else if ch == 'y' {
        (PendingInput { sub_state: SubState::OperatorPending, operator: Some(Operator::Yank(YankKind::Relative)), ..p }, None)
    } else if ch == 'Y' {
        (PendingInput { sub_state: SubState::OperatorPending, operator: Some(Operator::Yank(YankKind::Value)), ..p }, None)
    } else if ch == 'p' {
        (cleared(), Some(CommandView::OverwritePaste { before: false, count: c }))
    } else if ch == 'P' {
        (cleared(), Some(CommandView::OverwritePaste { before: true, count: c }))
    } else if ch == 'g' {
        (PendingInput { sub_state: SubState::GPrefix, ..p }, None)
    } else if ch == 'a' {
        (cleared(), Some(CommandView::EnterVisualMode))
    } else if ch == 'i' {
        (cleared(), Some(CommandView::EnterInsertMode(Some(Seq::empty()))))
    } else if ch == '=' {
        (cleared(), Some(CommandView::EnterInsertMode(Some(seq!['=']))))
    } else if ch == 's' || ch == 'S' {
        (cleared(), Some(CommandView::Save))
    } else if ch == 'q' || ch == 'Q' {
        (cleared(), Some(CommandView::Quit))
    } else if ch == 'u' {
        (cleared(), Some(CommandView::Undo { count: c }))
    } else {
        (cleared(), None)
    }
}

/// Count2 accumulation shared by the three operator-pending states: `Some` when `ch`
/// extends count2.
pub open spec fn step_count2(p: PendingInput, ch: char) -> Option<PendingInput> {
    if is_nonzero_digit(ch) {
        Some(PendingInput { count2: (p.count2 * 10 + digit_of(ch)) as usize, ..p })
    } else if ch == '0' && p.count2 > 0 {
        Some(PendingInput { count2: (p.count2 * 10) as usize, ..p })
    } else {
        None
    }
}

/// The motion of a character in an operator-pending state (`0` without count2 is the
/// start of the row).
pub open spec fn pending_motion(ch: char) -> Option<Motion> {
    if ch == '0' { Some(Motion::StartOfRow) } else { operator_motion(ch) }
}

/// One step of the parser after `d`, `y` or `Y`.
pub open spec fn step_pending(p: PendingInput, op: Operator, ch: char) -> (PendingInput, Option<CommandView>) {
    let t = total_count(p) as usize;
    let c = effective(p.count1) as usize;
    match step_count2(p, ch) {
        Some(q) => (q, None),
        None => match pending_motion(ch) {
            Some(m) => (cleared(), Some(operator_command(op, m, t))),
            None => if ch == 'd' && op == Operator::Delete {
                (cleared(), Some(CommandView::DeleteRow { count: c }))
            } else if (ch == 'y' || ch == 'Y') && op is Yank {
                (cleared(), Some(CommandView::YankRow { count: c, kind: op->Yank_0 }))
            } else {
                (cleared(), Some(CommandView::Reset))
            },
        },
    }
}

/// One step of the parser after `g`.
pub open spec fn step_g_prefix(p: PendingInput, ch: char) -> (PendingInput, Option<CommandView>) {
    let c = effective(p.count1) as usize;
    if ch == 'p' {
        (cleared(), Some(CommandView::OverwritePaste { before: false, count: c }))
    } else if ch == 'P' {
        (cleared(), Some(CommandView::OverwritePaste { before: true, count: c }))
    } else if ch == 'd' {
        (PendingInput { sub_state: SubState::GdOperatorPending, ..p }, None)
    } else if ch == 'y' {
        (PendingInput { sub_state: SubState::GyOperatorPending, ..p }, None)
    } else {
        (cleared(), Some(CommandView::Reset))
    }
}

/// One step of the parser after `gd` (column-axis delete).
pub open spec fn step_gd(p: PendingInput, ch: char) -> (PendingInput, Option<CommandView>) {
    let t = total_count(p) as usize;
    let c = effective(p.count1) as usize;
    match step_count2(p, ch) {
        Some(q) => (q, None),
        None => match pending_motion(ch) {
            Some(m) => (cleared(), Some(CommandView::ColDelete { motion: m, count: t })),
            None => if ch == 'd' {
                (cleared(), Some(CommandView::DeleteCol { count: c }))
            } else {
                (cleared(), Some(CommandView::Reset))
            },
        },
    }
}

/// One step of the parser after `gy` (raw yank).
pub open spec fn step_gy(p: PendingInput, ch: char) -> (PendingInput, Option<CommandView>) {
    let t = total_count(p) as usize;
    let c = effective(p.count1) as usize;
    match step_count2(p, ch) {
        Some(q) => (q, None),
        None => match pending_motion(ch) {
            Some(m) => (cleared(), Some(CommandView::Yank { motion: m, count: t, kind: YankKind::Raw })),
            None => if ch == 'y' {
                (cleared(), Some(CommandView::YankRow { count: c, kind: YankKind::Raw }))
            } else {
                (cleared(), Some(CommandView::Reset))
            },
        },
    }
}

/// One step of the parser: the next state and the command completed, if any.
pub open spec fn step(p: PendingInput, ch: char) -> (PendingInput, Option<CommandView>) {
    match p.sub_state {
        SubState::Idle => step_idle(p, ch),
        SubState::OperatorPending => step_pending(p, p.operator.unwrap(), ch),
        SubState::GPrefix => step_g_prefix(p, ch),
        SubState::GdOperatorPending => step_gd(p, ch),
        SubState::GyOperatorPending => step_gy(p, ch),
    }
}

/// The keys accumulated in `p`, as the status bar shows them.
pub open spec fn pending_text(p: PendingInput) -> Seq<char> {
    let head = if p.count1 > 0 { decimal(p.count1 as nat) } else { Seq::empty() };
    let mid = match p.sub_state {
        SubState::GPrefix => seq!['g'],
        SubState::GdOperatorPending => seq!['g', 'd'],
        SubState::GyOperatorPending => seq!['g', 'y'],
        SubState::OperatorPending => match p.operator {
            Some(Operator::Delete) => seq!['d'],
            Some(Operator::Yank(YankKind::Value)) => seq!['Y'],
            Some(Operator::Yank(_)) => seq!['y'],
            None => Seq::empty(),
        },
        SubState::Idle => Seq::empty(),
    };
    let tail = if p.count2 > 0 { decimal(p.count2 as nat) } else { Seq::empty() };
    head + mid + tail
}

/// The state after feeding `keys`, one by one, from the clean state.
pub open spec fn run(keys: Seq<char>) -> PendingInput
    decreases keys.len(),
{
    if keys.len() == 0 {
        cleared()
    } else {
        step(run(keys.drop_last()), keys.last()).0
    }
}

/// Every key of `keys` went into the command being assembled: none completed a command,
/// none was dropped (leaving the clean state), and no count left `usize`.
pub open spec fn assembling(keys: Seq<char>) -> bool
    decreases keys.len(),
{
    if keys.len() == 0 {
        true
    } else {
        let p = run(keys.drop_last());
        let (q, cmd) = step(p, keys.last());
        &&& assembling(keys.drop_last())
        &&& fits(p, keys.last())
        &&& cmd is None
        &&& q != cleared()
    }
}

/// What the sub-state says of the other fields in every state that keys lead to.
pub open spec fn shaped(p: PendingInput) -> bool {
    match p.sub_state {
        SubState::Idle | SubState::GPrefix => p.count2 == 0 && p.operator is None,
        SubState::GdOperatorPending | SubState::GyOperatorPending => p.operator is None,
        SubState::OperatorPending => p.operator is Some,
    }
}

proof fn lemma_decimal_append(c: nat, d: nat)
    requires
        c >= 1,
        d < 10,
    ensures
        decimal(c * 10 + d) == decimal(c).push(digit_char(d)),
{
    let n = c * 10 + d;
    vstd::arithmetic::div_mod::lemma_fundamental_div_mod_converse(n as int, 10, c as int, d as int);
    assert(n >= 10);
}

proof fn lemma_digit_char(ch: char)
    requires
        '0' <= ch && ch <= '9',
    ensures
        0 <= digit_of(ch) < 10,
        digit_char(digit_of(ch) as nat) == ch,
{
}

/// A count grown by one typed digit reads as its old notation followed by that digit.
proof fn lemma_count_echo(c: usize, ch: char, grown: usize)
    requires
        '0' <= ch && ch <= '9',
        ch == '0' ==> c > 0,
        grown == c * 10 + digit_of(ch),
    ensures
        grown > 0,
        decimal(grown as nat) == (if c > 0 { decimal(c as nat) } else { Seq::<char>::empty() }).push(ch),
{
    lemma_digit_char(ch);
    if c > 0 {
        lemma_decimal_append(c as nat, digit_of(ch) as nat);
    } else {
        assert(decimal(grown as nat) == seq![ch]);
        assert(Seq::<char>::empty().push(ch) == seq![ch]);
    }
}

/// Any key completes a command only by returning to the clean idle state: once a command
/// comes out, nothing of it is left pending.
pub proof fn law_command_leaves_clean_state(p: PendingInput, ch: char)
    ensures
        step(p, ch).1 is Some ==> step(p, ch).0 == cleared(),
{
}

/// After an operator, a motion applies the operator `count1 × count2` times, each count
/// being 1 when none was typed (`2d3j` deletes over 6 rows).
pub proof fn law_counts_multiply(p: PendingInput, ch: char)
    requires
        p.sub_state == SubState::OperatorPending || p.sub_state == SubState::GdOperatorPending
            || p.sub_state == SubState::GyOperatorPending,
        p.sub_state == SubState::OperatorPending ==> p.operator is Some,
        step_count2(p, ch) is None,
        pending_motion(ch) is Some,
        fits(p, ch),
    ensures
        step(p, ch).1 matches Some(cmd) && match cmd {
            CommandView::Delete { count, .. } => count == effective(p.count1) * effective(p.count2),
            CommandView::Yank { count, .. } => count == effective(p.count1) * effective(p.count2),
            CommandView::ColDelete { count, .. } => count == effective(p.count1) * effective(p.count2),
            _ => false,
        },
{
}

proof fn lemma_run_shaped(keys: Seq<char>)
    requires
        assembling(keys),
    ensures
        shaped(run(keys)),
        pending_text(run(keys)) == keys,
    decreases keys.len(),
{
    if keys.len() > 0 {
        let prefix = keys.drop_last();
        let ch = keys.last();
        lemma_run_shaped(prefix);
        let p = run(prefix);
        let q = step(p, ch).0;
        assert(keys == prefix.push(ch));
        let head = if p.count1 > 0 { decimal(p.count1 as nat) } else { Seq::<char>::empty() };
        match p.sub_state {
            SubState::Idle => {
                assert(pending_text(p) == head);
                if '0' <= ch && ch <= '9' {
                    lemma_count_echo(p.count1, ch, q.count1);
                    assert(pending_text(q) == decimal(q.count1 as nat));
                } else {
                    assert(pending_text(q) == head + seq![ch]);
                }
            },
            SubState::GPrefix => {
                assert(pending_text(p) == head + seq!['g']);
                assert(pending_text(q) == head + seq!['g', ch]);
                assert(head + seq!['g', ch] == (head + seq!['g']).push(ch));
            },
            _ => {
                let tail = if p.count2 > 0 { decimal(p.count2 as nat) } else { Seq::<char>::empty() };
                let mid = pending_text(p).subrange(head.len() as int, pending_text(p).len() - tail.len());
                assert(step_count2(p, ch) is Some);
                lemma_count_echo(p.count2, ch, q.count2);
                assert(pending_text(q) == head + mid + decimal(q.count2 as nat)) by {
                    assert(pending_text(p) =~= head + mid + tail);
                }
                assert(head + mid + tail.push(ch) == (head + mid + tail).push(ch));
            },
        }
    }
}

/// The clean state has the shape of every state: a recorded operator only while one is
/// pending, and a second count only in the operator states.
pub proof fn law_clean_state_is_shaped()
    ensures
        shaped(cleared()),
{
}

/// Every key keeps that shape: so do all states reached from the clean state through
/// [`NormalModeState::process_char`] and [`NormalModeState::reset`].
pub proof fn law_steps_keep_shape(p: PendingInput, ch: char)
    requires
        shaped(p),
    ensures
        shaped(step(p, ch).0),
{
}

/// In a state of that shape, the parser is idle exactly when no key is pending: `is_idle`
/// holds exactly when `pending_keys` is empty.
pub proof fn law_idle_iff_nothing_pending(p: PendingInput)
    requires
        shaped(p),
    ensures
        (p.sub_state == SubState::Idle && p.count1 == 0) <==> pending_text(p).len() == 0,
{
    if p.count1 > 0 {
        assert(decimal(p.count1 as nat).len() > 0);
    }
    if p.count2 > 0 {
        assert(decimal(p.count2 as nat).len() > 0);
    }
}

/// In the idle state a digit (a `0` only after another digit) completes nothing and adds to
/// the count: the count becomes `count1 × 10 + digit`, the status bar shows the digit after
/// the keys already pending, and the parser is no longer idle.
pub proof fn law_idle_digit_extends_count(p: PendingInput, ch: char)
    requires
        p.sub_state == SubState::Idle,
        shaped(p),
        is_nonzero_digit(ch) || (ch == '0' && p.count1 > 0),
        fits(p, ch),
    ensures
        step(p, ch).1 is None,
        step(p, ch).0.count1 == p.count1 * 10 + digit_of(ch),
        pending_text(step(p, ch).0) == pending_text(p).push(ch),
        !(step(p, ch).0.sub_state == SubState::Idle && step(p, ch).0.count1 == 0),
{
    let q = step(p, ch).0;
    lemma_count_echo(p.count1, ch, q.count1);
    let head = if p.count1 > 0 { decimal(p.count1 as nat) } else { Seq::<char>::empty() };
    assert(pending_text(p) == head);
    assert(pending_text(q) == decimal(q.count1 as nat));
}

/// The motion a key names on its own in the idle state, for the keys that take a count.
pub open spec fn counted_motion(ch: char) -> Option<Motion> {
    if ch == 'h' { Some(Motion::Left) }
    else if ch == 'j' { Some(Motion::Down) }
    else if ch == 'k' { Some(Motion::Up) }
    else if ch == 'l' { Some(Motion::Right) }
    else if ch == 'w' { Some(Motion::WordForward) }
    else if ch == 'b' { Some(Motion::WordBack) }
    else { None }
}

/// In the idle state, `h`, `j`, `k`, `l`, `w` and `b` move by the count typed before them
/// (1 when none was typed: `3k` moves up 3 rows, `k` one), and `0` and `$` go to the ends of
/// the row; each leaves the parser clean.
pub proof fn law_idle_motions_take_the_count(p: PendingInput, ch: char)
    requires
        p.sub_state == SubState::Idle,
    ensures
        counted_motion(ch) matches Some(m) ==> step(p, ch) == (cleared(), Some(CommandView::Move {
            motion: m,
            count: (if p.count1 == 0 { 1 } else { p.count1 }) as usize,
        })),
        ch == '$' ==> step(p, ch) == (cleared(), Some(CommandView::Move { motion: Motion::EndOfRow, count: 1 })),
        ch == '0' && p.count1 == 0 ==> step(p, ch) == (cleared(), Some(CommandView::Move { motion: Motion::StartOfRow, count: 1 })),
{
}

/// A count typed from the clean state reaches the motion: after the digits of `n`
/// (`0 < n < 10`), `k` moves up `n` rows.
pub proof fn law_typed_count_reaches_the_motion(n: usize, ch: char)
    requires
        0 < n < 10,
        counted_motion(ch) is Some,
    ensures
        step(step(cleared(), (n + '0' as int) as char).0, ch).1
            == Some(CommandView::Move { motion: counted_motion(ch)->0, count: n }),
{
    let d = (n + '0' as int) as char;
    assert(is_nonzero_digit(d));
    assert(digit_of(d) == n);
    law_idle_motions_take_the_count(step(cleared(), d).0, ch);
}

/// Doubling the operator acts on whole lines, as many as the count before it (1 when none):
/// `Ndd` deletes `N` rows, `Nyy` and `NYY` yank `N` rows, `Ngdd` deletes `N` columns and
/// `Ngyy` yanks `N` rows verbatim.
pub proof fn law_doubled_operator_takes_the_first_count(p: PendingInput, ch: char)
    requires
        p.count2 == 0,
        p.sub_state == SubState::OperatorPending ==> p.operator is Some,
    ensures
        ({
            let n = (if p.count1 == 0 { 1 } else { p.count1 }) as usize;
            &&& p.sub_state == SubState::OperatorPending && p.operator == Some(Operator::Delete) && ch == 'd'
                ==> step(p, ch) == (cleared(), Some(CommandView::DeleteRow { count: n }))
            &&& p.sub_state == SubState::OperatorPending && p.operator == Some(Operator::Yank(YankKind::Relative)) && ch == 'y'
                ==> step(p, ch) == (cleared(), Some(CommandView::YankRow { count: n, kind: YankKind::Relative }))
            &&& p.sub_state == SubState::OperatorPending && p.operator == Some(Operator::Yank(YankKind::Value)) && ch == 'Y'
                ==> step(p, ch) == (cleared(), Some(CommandView::YankRow { count: n, kind: YankKind::Value }))
            &&& p.sub_state == SubState::GdOperatorPending && ch == 'd'
                ==> step(p, ch) == (cleared(), Some(CommandView::DeleteCol { count: n }))
            &&& p.sub_state == SubState::GyOperatorPending && ch == 'y'
                ==> step(p, ch) == (cleared(), Some(CommandView::YankRow { count: n, kind: YankKind::Raw }))
        }),
{
}

/// While a command is being assembled, the status bar shows exactly the keys typed so far
/// (`2d3` after typing `2`, `d`, `3`).
pub proof fn law_pending_keys_echo_input(keys: Seq<char>)
    requires
        assembling(keys),
    ensures
        pending_text(run(keys)) == keys,
{
    lemma_run_shaped(keys);
}

/// Holds the in-progress state of a normal-mode key sequence.
///
/// Feed each character key through [`NormalModeState::process_char`].
#[derive(Debug)]
pub struct NormalModeState {
    sub_state: SubState,
    count1: usize,
    operator: Option<Operator>,
    count2: usize,
}

impl View for NormalModeState {
    type V = PendingInput;

    closed spec fn view(&self) -> PendingInput {
        PendingInput {
            sub_state: self.sub_state,
            count1: self.count1,
            operator: self.operator,
            count2: self.count2,
        }
    }
}

impl NormalModeState {
    /// An operator is recorded exactly while one is pending.
    #[verifier::type_invariant]
    spec fn operator_recorded(self) -> bool {
        self.sub_state == SubState::OperatorPending ==> self.operator is Some
    }

    pub fn new() -> (s: Self)
        ensures
            s@ == cleared(),
    {
        Self { sub_state: SubState::Idle, count1: 0, operator: None, count2: 0 }
    }

    /// Returns `true` when no count or operator is pending.
    pub fn is_idle(&self) -> (b: bool)
        ensures
            b == (self@.sub_state == SubState::Idle && self@.count1 == 0),
    {
        self.sub_state == SubState::Idle && self.count1 == 0
    }

    /// The keys accumulated so far, for display in the status bar; empty when the state
    /// is clean.
    pub fn pending_keys(&self) -> (s: String)
        ensures
            s@ == pending_text(self@),
    {
        let mut s = String::new();
        if self.count1 > 0 {
            push_decimal(&mut s, self.count1);
        }
        let ghost head = s@;
        match self.sub_state {
            SubState::GPrefix => push_char(&mut s, 'g'),
            SubState::GdOperatorPending => {
                push_char(&mut s, 'g');
                push_char(&mut s, 'd');
            },
            SubState::GyOperatorPending => {
                push_char(&mut s, 'g');
                push_char(&mut s, 'y');
            },
            SubState::OperatorPending => {
                match self.operator {
                    Some(Operator::Delete) => push_char(&mut s, 'd'),
                    Some(Operator::Yank(YankKind::Value)) => push_char(&mut s, 'Y'),
                    Some(Operator::Yank(_)) => push_char(&mut s, 'y'),
                    None => {},
                }
            },
            SubState::Idle => {},
        }
        let ghost mid = s@;
        if self.count2 > 0 {
            push_decimal(&mut s, self.count2);
        }
        proof {
            let p = self@;
            let h = if p.count1 > 0 { decimal(p.count1 as nat) } else { Seq::<char>::empty() };
            assert(head == Seq::<char>::empty() + h);
            assert(mid == head + (mid.subrange(head.len() as int, mid.len() as int)));
            assert(s@ == pending_text(p));
        }
        s
    }

    /// Reset to the clean idle state.
    pub fn reset(&mut self)
        ensures
            final(self)@ == cleared(),
    {
        self.sub_state = SubState::Idle;
        self.count1 = 0;
        self.operator = None;
        self.count2 = 0;
    }

    fn c1(&self) -> (c: usize)
        ensures
            c == effective(self@.count1),
    {
        if self.count1 == 0 { 1 } else { self.count1 }
    }

    fn c2(&self) -> (c: usize)
        ensures
            c == effective(self@.count2),
    {
        if self.count2 == 0 { 1 } else { self.count2 }
    }

    fn total(&self) -> (t: usize)
        requires
            total_count(self@) <= usize::MAX,
        ensures
            t == total_count(self@),
    {
        self.c1() * self.c2()
    }

    /// Whether [`NormalModeState::process_char`] can take `ch` without a count leaving
    /// `usize`.
    pub fn accepts(&self, ch: char) -> (b: bool)
        ensures
            b == fits(self@, ch),
    {
        let max = usize::MAX;
        match self.sub_state {
            SubState::Idle => {
                if is_digit_1_9(ch) {
                    fits_after_digit(self.count1, digit_value(ch))
                } else if ch == '0' {
                    fits_after_digit(self.count1, 0)
                } else {
                    true
                }
            },
            SubState::GPrefix => true,
            _ => {
                if is_digit_1_9(ch) {
                    fits_after_digit(self.count2, digit_value(ch))
                } else if ch == '0' && self.count2 > 0 {
                    fits_after_digit(self.count2, 0)
                } else if ch == '0' || motion_char(ch).is_some() {
                    let a = self.c1();
                    let b = self.c2();
                    proof {
                        assert(a >= 1 && b >= 1);
                    }
                    let ok = a <= max / b;
                    proof {
                        assert(ok == (a * b <= max)) by (nonlinear_arith)
                            requires
                                b >= 1,
                                ok == (a <= max / b),
                        {
                        }
                    }
                    ok
                } else {
                    true
                }
            },
        }
    }

    /// Feed one character key into the state machine.
    ///
    /// Returns `Some(command)` when a complete command has been assembled, `None` when more
    /// input is expected (or an unknown key was dropped in the idle state).
    pub fn process_char(&mut self, ch: char) -> (cmd: Option<NormalCommand>)
        requires
            fits(old(self)@, ch),
        ensures
            (final(self)@, command_view(cmd)) == step(old(self)@, ch),
    {
        proof {
            use_type_invariant(&*self);
        }
        match self.sub_state {
            SubState::Idle => self.process_idle(ch),
            SubState::OperatorPending => self.process_pending(ch),
            SubState::GPrefix => self.process_g_prefix(ch),
            SubState::GdOperatorPending => self.process_gd_pending(ch),
            SubState::GyOperatorPending => self.process_gy_pending(ch),
        }
    }

    fn process_idle(&mut self, ch: char) -> (cmd: Option<NormalCommand>)
        requires
            old(self)@.sub_state == SubState::Idle,
            fits(old(self)@, ch),
        ensures
            (final(self)@, command_view(cmd)) == step_idle(old(self)@, ch),
    {
        if is_digit_1_9(ch) {
            self.count1 = self.count1 * 10 + digit_value(ch);
            return None;
        }
        if ch == '0' {
            if self.count1 > 0 {
                self.count1 = self.count1 * 10;
                return None;
            } else {
                self.reset();
                return Some(NormalCommand::Move { motion: Motion::StartOfRow, count: 1 });
            }
        }
        let c = self.c1();
        if ch == 'h' {
            self.reset();
            Some(NormalCommand::Move { motion: Motion::Left, count: c })
        } else if ch == 'j' {
            self.reset();
            Some(NormalCommand::Move { motion: Motion::Down, count: c })
        } else if ch == 'k' {
            self.reset();
            Some(NormalCommand::Move { motion: Motion::Up, count: c })
        } else if ch == 'l' {
            self.reset();
            Some(NormalCommand::Move { motion: Motion::Right, count: c })
        } else if ch == 'w' {
            self.reset();
            Some(NormalCommand::Move { motion: Motion::WordForward, count: c })
        } else if ch == 'b' {
            self.reset();
            Some(NormalCommand::Move { motion: Motion::WordBack, count: c })
        } else if ch == '$' {
            self.reset();
            Some(NormalCommand::Move { motion: Motion::EndOfRow, count: 1 })
        } else if ch == 'd' {
            self.operator = Some(Operator::Delete);
            self.sub_state = SubState::OperatorPending;
            None
        } else if ch == 'y' {
            self.operator = Some(Operator::Yank(YankKind::Relative));
            self.sub_state = SubState::OperatorPending;
            None
        } else if ch == 'Y' {
            self.operator = Some(Operator::Yank(YankKind::Value));
            self.sub_state = SubState::OperatorPending;
            None
        } else if ch == 'p' {
            self.reset();
            Some(NormalCommand::OverwritePaste { before: false, count: c })
        } else if ch == 'P' {
            self.reset();
            Some(NormalCommand::OverwritePaste { before: true, count: c })
        } else if ch == 'g' {
            self.sub_state = SubState::GPrefix;
            None
        } else if ch == 'a' {
            self.reset();
            Some(NormalCommand::EnterVisualMode)
        } else if ch == 'i' {
            self.reset();
            Some(NormalCommand::EnterInsertMode(Some(String::new())))
        } else if ch == '=' {
            self.reset();
            let mut seed = String::new();
            push_char(&mut seed, '=');
            Some(NormalCommand::EnterInsertMode(Some(seed)))
        } else if ch == 's' || ch == 'S' {
            self.reset();
            Some(NormalCommand::Save)
        } else if ch == 'q' || ch == 'Q' {
            self.reset();
            Some(NormalCommand::Quit)
        } else if ch == 'u' {
            self.reset();
            Some(NormalCommand::Undo { count: c })
        } else {
            self.reset();
            None
        }
    }

    /// Count2 accumulation; `true` when `ch` was consumed as part of count2.
    fn accumulate_count2(&mut self, ch: char) -> (consumed: bool)
        requires
            old(self)@.sub_state != SubState::Idle,
            old(self)@.sub_state != SubState::GPrefix,
            fits(old(self)@, ch),
        ensures
            consumed == step_count2(old(self)@, ch) is Some,
            consumed ==> final(self)@ == step_count2(old(self)@, ch)->0,
            !consumed ==> final(self)@ == old(self)@,
    {
        proof {
            use_type_invariant(&*self);
        }
        if is_digit_1_9(ch) {
            self.count2 = self.count2 * 10 + digit_value(ch);
            true
        } else if ch == '0' && self.count2 > 0 {
            self.count2 = self.count2 * 10;
            true
        } else {
            false
        }
    }

    fn process_pending(&mut self, ch: char) -> (cmd: Option<NormalCommand>)
        requires
            old(self)@.sub_state == SubState::OperatorPending,
            old(self)@.operator is Some,
            fits(old(self)@, ch),
        ensures
            (final(self)@, command_view(cmd)) == step_pending(old(self)@, old(self)@.operator.unwrap(), ch),
    {
        let op = match self.operator {
            Some(o) => o,
            None => Operator::Delete,
        };
        if self.accumulate_count2(ch) {
            return None;
        }
        let m = if ch == '0' { Some(Motion::StartOfRow) } else { motion_char(ch) };
        match m {
            Some(motion) => {
                let count = self.total();
                self.reset();
                Some(Self::op_cmd(op, motion, count))
            },
            None => {
                let c = self.c1();
                self.reset();
                if ch == 'd' && op == Operator::Delete {
                    Some(NormalCommand::DeleteRow { count: c })
                } else if ch == 'y' || ch == 'Y' {
                    match op {
                        Operator::Yank(kind) => Some(NormalCommand::YankRow { count: c, kind }),
                        Operator::Delete => Some(NormalCommand::Reset),
                    }
                } else {
                    Some(NormalCommand::Reset)
                }
            },
        }
    }

    fn process_g_prefix(&mut self, ch: char) -> (cmd: Option<NormalCommand>)
        requires
            old(self)@.sub_state == SubState::GPrefix,
        ensures
            (final(self)@, command_view(cmd)) == step_g_prefix(old(self)@, ch),
    {
        // A count typed before 'g' (e.g. "3gp") is carried via count1.
        let c = self.c1();
        if ch == 'p' {
            self.reset();
            Some(NormalCommand::OverwritePaste { before: false, count: c })
        } else if ch == 'P' {
            self.reset();
            Some(NormalCommand::OverwritePaste { before: true, count: c })
        } else if ch == 'd' {
            self.sub_state = SubState::GdOperatorPending;
            None
        } else if ch == 'y' {
            self.sub_state = SubState::GyOperatorPending;
            None
        } else {
            self.reset();
            Some(NormalCommand::Reset)
        }
    }

    fn process_gd_pending(&mut self, ch: char) -> (cmd: Option<NormalCommand>)
        requires
            old(self)@.sub_state == SubState::GdOperatorPending,
            fits(old(self)@, ch),
        ensures
            (final(self)@, command_view(cmd)) == step_gd(old(self)@, ch),
    {
        if self.accumulate_count2(ch) {
            return None;
        }
        let m = if ch == '0' { Some(Motion::StartOfRow) } else { motion_char(ch) };
        match m {
            Some(motion) => {
                let count = self.total();
                self.reset();
                Some(NormalCommand::ColDelete { motion, count })
            },
            None => {
                let c = self.c1();
                self.reset();
                if ch == 'd' {
                    Some(NormalCommand::DeleteCol { count: c })
                } else {
                    Some(NormalCommand::Reset)
                }
            },
        }
    }

    fn process_gy_pending(&mut self, ch: char) -> (cmd: Option<NormalCommand>)
        requires
            old(self)@.sub_state == SubState::GyOperatorPending,
            fits(old(self)@, ch),
        ensures
            (final(self)@, command_view(cmd)) == step_gy(old(self)@, ch),
    {
        if self.accumulate_count2(ch) {
            return None;
        }
        let m = if ch == '0' { Some(Motion::StartOfRow) } else { motion_char(ch) };
        match m {
            Some(motion) => {
                let count = self.total();
                self.reset();
                Some(NormalCommand::Yank { motion, count, kind: YankKind::Raw })
            },
            None => {
                let c = self.c1();
                self.reset();
                if ch == 'y' {
                    Some(NormalCommand::YankRow { count: c, kind: YankKind::Raw })
                } else {
                    Some(NormalCommand::Reset)
                }
            },
        }
    }

    fn op_cmd(op: Operator, motion: Motion, count: usize) -> (cmd: NormalCommand)
        ensures
            cmd@ == operator_command(op, motion, count),
    {
        match op {
            Operator::Delete => NormalCommand::Delete { motion, count },
            Operator::Yank(kind) => NormalCommand::Yank { motion, count, kind },
        }
    }
}

/// Whether appending the digit `d` to the count `c` stays within `usize`.
fn fits_after_digit(c: usize, d: usize) -> (b: bool)
    requires
        d <= 9,
    ensures
        b == (c * 10 + d <= usize::MAX),
{
    let q = (usize::MAX - d) / 10;
    let b = c <= q;
    proof {
        let m = usize::MAX - d;
        assert(b == (c * 10 + d <= usize::MAX)) by (nonlinear_arith)
            requires
                m >= 0,
                q == m / 10,
                b == (c <= q),
                m == usize::MAX - d,
        {
        }
    }
    b
}

/// `ch` is one of `1`..`9`.
fn is_digit_1_9(ch: char) -> (b: bool)
    ensures
        b == is_nonzero_digit(ch),
{
    '1' <= ch && ch <= '9'
}

/// The value of the digit `ch`.
fn digit_value(ch: char) -> (d: usize)
    requires
        '0' <= ch <= '9',
    ensures
        d == digit_of(ch),
        d <= 9,
{
    (ch as u32 - '0' as u32) as usize
}

/// The motion `ch` names after an operator.
fn motion_char(ch: char) -> (m: Option<Motion>)
    ensures
        m == operator_motion(ch),
{
    if ch == 'h' { Some(Motion::Left) }
    else if ch == 'j' { Some(Motion::Down) }
    else if ch == 'k' { Some(Motion::Up) }
    else if ch == 'l' { Some(Motion::Right) }
    else if ch == 'w' { Some(Motion::WordForward) }
    else if ch == 'b' { Some(Motion::WordBack) }
    else if ch == '$' { Some(Motion::EndOfRow) }
    else { None }
}

} // verus!
