//! The text of the grid's headers and of the status bar.
use vstd::prelude::*;
use crate::address::{col_to_letter, column_letters};
use crate::app::{App, Mode};
use crate::normal_mode::pending_text;
use crate::text::{decimal, push_char, push_decimal};

verus! {

/// `n` spaces.
pub open spec fn spaces(n: nat) -> Seq<char> {
    Seq::new(n, |i: int| ' ')
}

/// `s` followed by spaces up to `width` characters (as `{:<width$}` formats it).
pub open spec fn pad_right(s: Seq<char>, width: nat) -> Seq<char> {
    if s.len() >= width { s } else { s + spaces((width - s.len()) as nat) }
}

/// `s` after spaces up to `width` characters (as `{:>width$}` formats it).
pub open spec fn pad_left(s: Seq<char>, width: nat) -> Seq<char> {
    if s.len() >= width { s } else { spaces((width - s.len()) as nat) + s }
}

/// `s` centered in `width` characters, the odd space on the right (as `{:^width$}`
/// formats it).
pub open spec fn centered(s: Seq<char>, width: nat) -> Seq<char> {
    if s.len() >= width {
        s
    } else {
        let left = ((width - s.len()) / 2) as nat;
        spaces(left) + s + spaces((width - s.len() - left) as nat)
    }
}

/// Appends `n` spaces to `s`.
fn push_spaces(s: &mut String, n: usize)
    ensures
        final(s)@ == old(s)@ + spaces(n as nat),
{
    let mut i: usize = 0;
    while i < n
        invariant
            i <= n,
            s@ == old(s)@ + spaces(i as nat),
        decreases n - i,
    {
        push_char(s, ' ');
        proof {
            assert(old(s)@ + spaces((i + 1) as nat) == (old(s)@ + spaces(i as nat)).push(' '));
        }
        i = i + 1;
    }
}

/// The header of row `row` (zero-based): its one-based number right-aligned in `width`
/// characters, then a space.
pub fn row_label(row: usize, width: usize) -> (s: String)
    requires
        row < usize::MAX,
    ensures
        s@ == pad_left(decimal((row + 1) as nat), width as nat).push(' '),
{
    let mut digits = String::new();
    push_decimal(&mut digits, row + 1);
    let n = digits.as_str().unicode_len();
    let mut s = String::new();
    if n < width {
        push_spaces(&mut s, width - n);
    }
    s.append(digits.as_str());
    push_char(&mut s, ' ');
    proof {
        assert(Seq::<char>::empty() + digits@ == digits@);
        assert(Seq::<char>::empty() + spaces((width - n) as nat) == spaces((width - n) as nat));
    }
    s
}

/// The header of column `col`: its letters centered in `width` characters, then `|`.
pub fn column_header(col: usize, width: usize) -> (s: String)
    ensures
        s@ == centered(column_letters(col as nat), width as nat).push('|'),
{
    let letters = col_to_letter(col);
    let n = letters.as_str().unicode_len();
    let mut s = String::new();
    if n < width {
        let left = (width - n) / 2;
        push_spaces(&mut s, left);
        s.append(letters.as_str());
        push_spaces(&mut s, width - n - left);
    } else {
        s.append(letters.as_str());
    }
    push_char(&mut s, '|');
    proof {
        assert(Seq::<char>::empty() + letters@ == letters@);
        assert(Seq::<char>::empty() + spaces(((width - n) / 2) as nat) == spaces(((width - n) / 2) as nat));
    }
    s
}

/// The label of a mode in the status bar.
pub open spec fn mode_label(m: Mode) -> Seq<char> {
    match m {
        Mode::Normal => " NORMAL "@,
        Mode::Visual => " VISUAL "@,
        Mode::Insert => " INSERT "@,
    }
}

/// The name of the cursor's cell: its column letters and one-based row number.
pub open spec fn cursor_name(app: App) -> Seq<char> {
    column_letters(app.cursor_col as nat) + decimal((app.cursor_row + 1) as nat)
}

/// The keys of the Normal-mode command being typed, followed by a space; empty when none
/// is pending or the session is in another mode.
pub open spec fn pending_shown(app: App) -> Seq<char> {
    let keys = pending_text(app.normal@);
    if app.mode == Mode::Normal && keys.len() > 0 { keys + " "@ } else { Seq::empty() }
}

/// The status bar's text before padding: the mode, the cursor's cell name, the cursor
/// cell's formula when its text starts with `=`, the keys of a pending Normal-mode command,
/// and the status message.
pub open spec fn status_text(app: App) -> Seq<char> {
    let name = " ["@ + cursor_name(app) + "] "@;
    let raw = app.current_text();
    let preview = if raw.len() > 0 && raw[0] == '=' { " Formula: '"@ + raw + "' "@ } else { Seq::empty() };
    mode_label(app.mode) + name + preview + pending_shown(app) + app.status_message@
}

impl App {
    /// The title of the Insert-mode overlay: ` Edit Cell [B3] ` for the cell B3.
    pub fn modal_title(&self) -> (s: String)
        requires
            self.wf(),
        ensures
            s@ == " Edit Cell ["@ + cursor_name(*self) + "] "@,
    {
        let mut s = " Edit Cell [".to_owned();
        let letters = col_to_letter(self.cursor_col);
        s.append(letters.as_str());
        proof {
            self.sheet.lemma_dimensions_bounded();
        }
        push_decimal(&mut s, self.cursor_row + 1);
        proof {
            assert(s@ == " Edit Cell ["@ + cursor_name(*self));
        }
        s.append("] ");
        s
    }

    /// The status bar, padded with spaces to `width` characters.
    #[verifier::rlimit(30)]
    pub fn status_line(&self, width: usize) -> (s: String)
        requires
            self.wf(),
        ensures
            s@ == pad_right(status_text(*self), width as nat),
    {
        let mut s = String::new();
        match self.mode {
            Mode::Normal => s.append(" NORMAL "),
            Mode::Visual => s.append(" VISUAL "),
            Mode::Insert => s.append(" INSERT "),
        }
        let ghost label = s@;
        s.append(" [");
        let letters = col_to_letter(self.cursor_col);
        s.append(letters.as_str());
        proof {
            self.sheet.lemma_dimensions_bounded();
        }
        push_decimal(&mut s, self.cursor_row + 1);
        s.append("] ");
        let ghost named = s@;
        match self.sheet.get_cell(self.cursor_row, self.cursor_col) {
            Some(raw) => {
                let text = raw.as_str();
                if text.unicode_len() > 0 && text.get_char(0) == '=' {
                    s.append(" Formula: '");
                    s.append(text);
                    s.append("' ");
                }
            },
            None => {},
        }
        let ghost previewed = s@;
        if self.mode == Mode::Normal {
            let keys = self.normal.pending_keys();
            if keys.as_str().unicode_len() > 0 {
                s.append(keys.as_str());
                s.append(" ");
            }
        }
        let ghost pending = s@;
        proof {
            reveal_strlit(" ");
            assert(pending == previewed + pending_shown(*self));
        }
        s.append(self.status_message.as_str());
        let n = s.as_str().unicode_len();
        if n < width {
            push_spaces(&mut s, width - n);
        }
        proof {
            assert(label == Seq::<char>::empty() + mode_label(self.mode));
            let name = " ["@ + cursor_name(*self) + "] "@;
            assert(named == mode_label(self.mode) + name);
        }
        s
    }
}

} // verus!
