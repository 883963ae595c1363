use rsheet::app::{action_for, Action, App, Direction, Effect, GridConfig, Key, Mode, Modifiers, MouseInput, Seed};
use rsheet::sheet::Spreadsheet;

fn cell(app: &App, r: usize, c: usize) -> Option<&str> {
    app.sheet.get_cell(r, c).map(|s| s.as_str())
}

#[test]
fn test_enter_and_cancel_insert_mode() {
    let sheet = Spreadsheet::new(10, 10);
    let mut app = App::new(sheet);

    // 'i' from Normal → Insert with blank buffer
    app.enter_insert_mode(Some(String::new()));
    assert_eq!(app.mode, Mode::Insert);

    // Type "123"
    app.handle_insert_input(Key::Char('1'));
    app.handle_insert_input(Key::Char('2'));
    app.handle_insert_input(Key::Char('3'));
    assert_eq!(app.edit_buffer, "123");

    // Cancel with Esc → back to Visual mode
    app.handle_insert_input(Key::Esc);
    assert_eq!(app.mode, Mode::Visual);
    assert_eq!(cell(&app, 0, 0), Some(""));
}

#[test]
fn test_commit_insert_mode() {
    let sheet = Spreadsheet::new(10, 10);
    let mut app = App::new(sheet);

    app.enter_insert_mode(Some(String::new()));
    app.handle_insert_input(Key::Char('4'));
    app.handle_insert_input(Key::Char('2'));

    // Commit with Enter → back to Visual mode
    app.handle_insert_input(Key::Enter);
    assert_eq!(app.mode, Mode::Visual);
    assert_eq!(cell(&app, 0, 0), Some("42"));
}

#[test]
fn test_visual_mode_transition() {
    let sheet = Spreadsheet::new(10, 10);
    let mut app = App::new(sheet);

    assert_eq!(app.mode, Mode::Normal);
    app.enter_visual_mode();
    assert_eq!(app.mode, Mode::Visual);
    app.exit_visual_mode();
    assert_eq!(app.mode, Mode::Normal);
}

#[test]
fn test_formula_shortcut_enters_insert_with_equals() {
    let sheet = Spreadsheet::new(10, 10);
    let mut app = App::new(sheet);

    app.enter_insert_mode(Some("=".to_string()));
    assert_eq!(app.mode, Mode::Insert);
    assert_eq!(app.edit_buffer, "=");
    assert_eq!(app.edit_cursor_idx, 1);
}

// ---------------------------------------------------------------------------
// Further cases
// ---------------------------------------------------------------------------

#[test]
fn new_session_starts_in_normal_mode() {
    let app = App::new(Spreadsheet::new(10, 10));
    assert_eq!(app.mode, Mode::Normal);
    assert_eq!((app.cursor_row, app.cursor_col, app.scroll_row, app.scroll_col), (0, 0, 0, 0));
    assert_eq!(app.grid_config, GridConfig::default());
    assert_eq!(
        app.status_message,
        "NORMAL -- 'a'/F2: visual mode | 'i': insert | '=': formula | 's': save | 'q': quit"
    );
    assert!(!app.should_quit);
    assert_eq!(app.terminal_size, (80, 24));
}

#[test]
fn editing_the_buffer() {
    let mut app = App::new(Spreadsheet::new(10, 10));
    app.enter_insert_mode(Some("héllo".to_string()));
    assert_eq!(app.edit_cursor_idx, 5);
    app.handle_insert_input(Key::Left);
    app.handle_insert_input(Key::Left);
    app.handle_insert_input(Key::Char('X'));
    assert_eq!(app.edit_buffer, "hélXlo");
    assert_eq!(app.edit_cursor_idx, 4);
    app.handle_insert_input(Key::Backspace);
    assert_eq!(app.edit_buffer, "héllo");
    app.handle_insert_input(Key::Home);
    app.handle_insert_input(Key::Backspace);
    assert_eq!(app.edit_buffer, "héllo");
    app.handle_insert_input(Key::Right);
    app.handle_insert_input(Key::Delete);
    assert_eq!(app.edit_buffer, "hllo");
    app.handle_insert_input(Key::End);
    app.handle_insert_input(Key::Delete);
    app.handle_insert_input(Key::Right);
    assert_eq!(app.edit_cursor_idx, 4);
    app.handle_insert_input(Key::F(2));
    assert_eq!(cell(&app, 0, 0), Some("hllo"));
    assert_eq!(app.status_message, "Cell updated");
    assert_eq!(app.edit_buffer, "");
    assert_eq!(app.edit_cursor_idx, 0);
}

#[test]
fn insert_mode_loads_the_current_cell() {
    let mut app = App::new(Spreadsheet::new(10, 10));
    app.sheet.set_cell(2, 3, "=A1+1".to_string());
    app.cursor_row = 2;
    app.cursor_col = 3;
    app.enter_insert_mode(None);
    assert_eq!(app.edit_buffer, "=A1+1");
    assert_eq!(app.edit_cursor_idx, 5);
    assert_eq!(app.status_message, "INSERT -- Enter: commit | Esc: discard");
    let rc = app.exit_insert_mode(false);
    assert!(rc.is_none());
    assert_eq!(app.status_message, "Insert canceled");
}

#[test]
fn committing_returns_the_cells_to_recompute() {
    let mut app = App::new(Spreadsheet::new(10, 10));
    app.sheet.set_cell(1, 0, "=A1*2".to_string());
    app.enter_insert_mode(Some("3".to_string()));
    let rc = app.exit_insert_mode(true).unwrap();
    assert_eq!(rc.order, vec![(0, 0), (1, 0)]);
    assert!(!rc.circular);
}

#[test]
fn delete_cell_clears_the_cursor_cell() {
    let mut app = App::new(Spreadsheet::new(10, 10));
    app.sheet.set_cell(0, 0, "abc".to_string());
    let rc = app.delete_cell().unwrap();
    assert_eq!(rc.order, vec![(0, 0)]);
    assert_eq!(cell(&app, 0, 0), Some(""));
    assert_eq!(app.status_message, "Cell deleted");
}

#[test]
fn moves_stop_at_the_edges() {
    let mut app = App::new(Spreadsheet::new(5, 4));
    app.move_cursor(Direction::Vertical(-1));
    app.move_cursor(Direction::Horizontal(-3));
    assert_eq!((app.cursor_row, app.cursor_col), (0, 0));
    app.move_cursor(Direction::Vertical(100));
    app.move_cursor(Direction::Horizontal(2));
    assert_eq!((app.cursor_row, app.cursor_col), (4, 2));
    app.move_cursor(Direction::Horizontal(isize::MIN));
    assert_eq!(app.cursor_col, 0);
    app.move_to_start_of_col();
    assert_eq!(app.cursor_row, 0);
    app.cursor_col = 3;
    app.move_to_start_line();
    assert_eq!(app.cursor_col, 0);
}

#[test]
fn viewport_follows_the_cursor() {
    // 80 × 24 terminal: 22 grid lines under the header, (80 - 6) / 12 = 6 columns.
    let mut app = App::new(Spreadsheet::new(100, 26));
    for _ in 0..25 {
        app.move_cursor(Direction::Vertical(1));
    }
    assert_eq!(app.cursor_row, 25);
    assert_eq!(app.scroll_row, 25 - 22 + 1);
    for _ in 0..7 {
        app.move_cursor(Direction::Horizontal(1));
    }
    assert_eq!(app.scroll_col, 7 - 6 + 1);
    app.move_cursor(Direction::Vertical(-25));
    assert_eq!(app.scroll_row, 0);
    app.move_to_start();
    assert_eq!((app.cursor_row, app.cursor_col, app.scroll_row, app.scroll_col), (0, 0, 0, 0));

    // A terminal too small for one cell leaves the scroll alone.
    app.terminal_size = (5, 2);
    app.move_cursor(Direction::Vertical(50));
    assert_eq!(app.cursor_row, 50);
    assert_eq!(app.scroll_row, 0);
}

#[test]
fn grid_dimensions() {
    let cfg = GridConfig::default();
    assert_eq!(cfg.visible_dimensions(80, 24), (23, 6));
    assert_eq!(cfg.visible_dimensions(5, 24), (0, 0));
    assert_eq!(cfg.visible_dimensions(6, 1), (0, 0));
    assert_eq!(cfg.visible_dimensions(30, 0), (0, 0));
}

#[test]
fn clicks_select_and_double_clicks_edit() {
    let mut app = App::new(Spreadsheet::new(10, 10));
    app.sheet.set_cell(2, 1, "hi".to_string());
    // Headers are not cells.
    app.handle_mouse_left_click(3, 5, 0);
    assert_eq!((app.cursor_row, app.cursor_col), (0, 0));
    // Column (20 - 6) / 12 = 1, row 3 - 1 = 2.
    app.handle_mouse_left_click(20, 3, 1_000);
    assert_eq!((app.cursor_row, app.cursor_col), (2, 1));
    assert_eq!(app.last_clicked_cell, Some((2, 1)));
    assert_eq!(app.mode, Mode::Normal);
    app.handle_mouse_left_click(21, 3, 1_000 + 300_000_000);
    assert_eq!(app.mode, Mode::Insert);
    assert_eq!(app.edit_buffer, "hi");
    assert_eq!(app.last_clicked_cell, None);
    assert_eq!(app.last_click_time, None);
}

#[test]
fn slow_second_click_is_a_single_click() {
    let mut app = App::new(Spreadsheet::new(10, 10));
    app.handle_mouse_left_click(20, 3, 0);
    app.handle_mouse_left_click(20, 3, 300_000_001);
    assert_eq!(app.mode, Mode::Normal);
    assert_eq!(app.last_click_time, Some(300_000_001));
    // Beyond the sheet nothing happens.
    app.handle_mouse_left_click(200, 3, 300_000_002);
    assert_eq!((app.cursor_row, app.cursor_col), (2, 1));
}

#[test]
fn normal_mode_keys() {
    // Character keys of Normal mode go to the command parser.
    assert_eq!(action_for(Mode::Normal, Key::Char('j'), Modifiers::Plain), Action::Nothing);
    assert_eq!(action_for(Mode::Normal, Key::Down, Modifiers::Plain), Action::Move(Direction::Vertical(1)));
    assert_eq!(action_for(Mode::Normal, Key::Left, Modifiers::Plain), Action::Move(Direction::Horizontal(-1)));
    assert_eq!(action_for(Mode::Normal, Key::Home, Modifiers::Control), Action::MoveToStart);
    assert_eq!(action_for(Mode::Normal, Key::Home, Modifiers::Shift), Action::MoveToStartOfColumn);
    assert_eq!(action_for(Mode::Normal, Key::Home, Modifiers::Mixed), Action::MoveToStartOfLine);
    assert_eq!(action_for(Mode::Normal, Key::F(2), Modifiers::Plain), Action::EnterVisual);
    assert_eq!(action_for(Mode::Normal, Key::Enter, Modifiers::Plain), Action::EnterInsert(Seed::CurrentCell));
    assert_eq!(action_for(Mode::Normal, Key::Char('x'), Modifiers::Plain), Action::Nothing);
}

#[test]
fn visual_mode_keys() {
    assert_eq!(action_for(Mode::Visual, Key::Char('j'), Modifiers::Plain), Action::EnterInsert(Seed::Typed('j')));
    assert_eq!(action_for(Mode::Visual, Key::Enter, Modifiers::Plain), Action::Move(Direction::Vertical(1)));
    assert_eq!(action_for(Mode::Visual, Key::Esc, Modifiers::Plain), Action::ExitVisual);
    assert_eq!(action_for(Mode::Visual, Key::Backspace, Modifiers::Plain), Action::DeleteCell);
    assert_eq!(action_for(Mode::Insert, Key::Esc, Modifiers::Plain), Action::Edit(Key::Esc));
}

#[test]
fn key_dispatch_drives_the_session() {
    let mut app = App::new(Spreadsheet::new(10, 10));
    assert!(matches!(app.handle_key(Key::Char('l'), Modifiers::Plain), Some(Effect::Nothing)));
    assert_eq!(app.cursor_col, 1);
    app.handle_key(Key::Char('a'), Modifiers::Plain);
    assert_eq!(app.mode, Mode::Visual);
    assert_eq!(app.status_message, "VISUAL -- Arrows: navigate | Type to insert | Esc: back to normal");
    app.handle_key(Key::Char('7'), Modifiers::Plain);
    assert_eq!(app.mode, Mode::Insert);
    assert_eq!(app.edit_buffer, "7");
    match app.handle_key(Key::Enter, Modifiers::Plain) {
        Some(Effect::Recalculate(rc)) => assert_eq!(rc.order, vec![(0, 1)]),
        _ => panic!("a commit recalculates"),
    }
    assert_eq!(cell(&app, 0, 1), Some("7"));
    app.handle_key(Key::Esc, Modifiers::Plain);
    assert_eq!(app.mode, Mode::Normal);
    assert!(matches!(app.handle_key(Key::Char('S'), Modifiers::Plain), Some(Effect::Save)));
    app.handle_key(Key::Char('q'), Modifiers::Plain);
    assert!(app.should_quit);
}

#[test]
fn mouse_wheel_moves_the_cursor() {
    let mut app = App::new(Spreadsheet::new(10, 10));
    app.handle_mouse(MouseInput::ScrollDown { control: false }, 0);
    app.handle_mouse(MouseInput::ScrollDown { control: true }, 0);
    assert_eq!((app.cursor_row, app.cursor_col), (1, 1));
    app.handle_mouse(MouseInput::ScrollUp { control: false }, 0);
    assert_eq!((app.cursor_row, app.cursor_col), (0, 1));
    app.enter_insert_mode(None);
    app.handle_mouse(MouseInput::ScrollDown { control: false }, 0);
    app.handle_mouse(MouseInput::LeftDown { column: 40, row: 5 }, 0);
    assert_eq!((app.cursor_row, app.cursor_col), (0, 1));
}

#[test]
fn performable_checks_commits_and_moves() {
    let mut app = App::new(Spreadsheet::new(3, 3));
    assert!(app.performable(Action::Move(Direction::Vertical(1))));
    app.enter_insert_mode(Some("=AAAAAAAAAAAAAAAAAAAAAAAA1".to_string()));
    assert!(!app.performable(Action::Edit(Key::Enter)));
    assert!(app.performable(Action::Edit(Key::Esc)));
    let empty = App::new(Spreadsheet::new(0, 0));
    assert!(!empty.performable(Action::Move(Direction::Vertical(1))));
    assert!(empty.performable(Action::Move(Direction::Vertical(-1))));
}

#[test]
fn saving_needs_a_file() {
    let mut app = App::new(Spreadsheet::new(3, 3));
    assert!(app.save_spreadsheet().is_none());
    assert_eq!(app.status_message, "No file path associated with spreadsheet");
    let (sheet, _) = Spreadsheet::from_records(vec![vec!["1".to_string()]], 3, 3, Some("a.csv".to_string()));
    let mut app = App::new(sheet);
    let (path, bytes) = app.save_spreadsheet().unwrap();
    assert_eq!(path, "a.csv");
    assert_eq!(bytes, b"1\n".to_vec());
    app.save_finished(&path, None);
    assert_eq!(app.status_message, "Saved successfully to a.csv");
    app.save_finished(&path, Some("disk full".to_string()));
    assert_eq!(app.status_message, "Error saving: disk full");
}

#[test]
fn try_perform_refuses_what_would_overflow() {
    let mut app = App::new(Spreadsheet::new(3, 3));
    app.enter_insert_mode(Some("=AAAAAAAAAAAAAAAAAAAAAAAA1".to_string()));
    assert!(app.try_perform(Action::Edit(Key::Enter)).is_none());
    assert_eq!(app.mode, Mode::Insert);
    assert!(matches!(app.try_perform(Action::Edit(Key::Esc)), Some(Effect::Nothing)));
    assert_eq!(app.mode, Mode::Visual);
}

#[test]
fn normal_mode_counts_and_row_ends() {
    let mut app = App::new(Spreadsheet::new(10, 8));
    app.handle_key(Key::Char('3'), Modifiers::Plain);
    assert_eq!(app.normal.pending_keys(), "3");
    assert!(app.status_line(0).contains(" 3 "));
    app.handle_key(Key::Char('j'), Modifiers::Plain);
    assert_eq!((app.cursor_row, app.cursor_col), (3, 0));
    assert!(app.normal.is_idle());
    app.handle_key(Key::Char('2'), Modifiers::Plain);
    app.handle_key(Key::Char('w'), Modifiers::Plain);
    assert_eq!(app.cursor_col, 2);
    app.handle_key(Key::Char('b'), Modifiers::Plain);
    assert_eq!(app.cursor_col, 1);
    app.handle_key(Key::Char('$'), Modifiers::Plain);
    assert_eq!(app.cursor_col, 7);
    app.handle_key(Key::Char('0'), Modifiers::Plain);
    assert_eq!(app.cursor_col, 0);
    // A count past the edge stops at the last row; `k` moves back up.
    app.handle_key(Key::Char('2'), Modifiers::Plain);
    app.handle_key(Key::Char('0'), Modifiers::Plain);
    app.handle_key(Key::Char('j'), Modifiers::Plain);
    assert_eq!(app.cursor_row, 9);
    app.handle_key(Key::Char('k'), Modifiers::Plain);
    assert_eq!(app.cursor_row, 8);
    app.handle_key(Key::Char('h'), Modifiers::Plain);
    assert_eq!(app.cursor_col, 0);
}

#[test]
fn normal_mode_pending_command_and_cancel() {
    let mut app = App::new(Spreadsheet::new(10, 10));
    app.handle_key(Key::Char('2'), Modifiers::Plain);
    app.handle_key(Key::Char('d'), Modifiers::Plain);
    app.handle_key(Key::Char('3'), Modifiers::Plain);
    assert_eq!(app.normal.pending_keys(), "2d3");
    assert!(app.status_line(0).contains(" 2d3 "));
    assert!(matches!(app.handle_key(Key::Esc, Modifiers::Plain), Some(Effect::Nothing)));
    assert!(app.normal.is_idle());
    assert_eq!(app.normal.pending_keys(), "");
    assert_eq!((app.cursor_row, app.cursor_col), (0, 0));
    // A non-character key cancels the command and acts as usual.
    app.handle_key(Key::Char('5'), Modifiers::Plain);
    app.handle_key(Key::Down, Modifiers::Plain);
    assert!(app.normal.is_idle());
    assert_eq!(app.cursor_row, 1);
}

#[test]
fn normal_mode_mode_keys() {
    let mut app = App::new(Spreadsheet::new(5, 5));
    app.handle_key(Key::Char('i'), Modifiers::Plain);
    assert_eq!(app.mode, Mode::Insert);
    assert_eq!(app.edit_buffer, "");
    app.handle_key(Key::Esc, Modifiers::Plain);
    app.handle_key(Key::Esc, Modifiers::Plain);
    assert_eq!(app.mode, Mode::Normal);
    app.handle_key(Key::Char('='), Modifiers::Plain);
    assert_eq!(app.mode, Mode::Insert);
    assert_eq!(app.edit_buffer, "=");
    app.handle_key(Key::Esc, Modifiers::Plain);
    app.handle_key(Key::Esc, Modifiers::Plain);
    assert!(matches!(app.handle_key(Key::Char('s'), Modifiers::Plain), Some(Effect::Save)));
    // An unknown key does nothing.
    assert!(matches!(app.handle_key(Key::Char('x'), Modifiers::Plain), Some(Effect::Nothing)));
    assert_eq!(app.mode, Mode::Normal);
    app.handle_key(Key::Char('Q'), Modifiers::Plain);
    assert!(app.should_quit);
}

fn filled(rows: usize, cols: usize) -> App {
    let mut sheet = Spreadsheet::new(rows, cols);
    for r in 0..rows {
        for c in 0..cols {
            sheet.set_cell(r, c, format!("{}{}", r, c));
        }
    }
    App::new(sheet)
}

fn type_keys(app: &mut App, keys: &str) -> Option<Effect> {
    let mut last = None;
    for ch in keys.chars() {
        last = app.handle_key(Key::Char(ch), Modifiers::Plain);
    }
    last
}

fn empty_cells(app: &App) -> Vec<(usize, usize)> {
    let mut out = Vec::new();
    for r in 0..app.sheet.max_rows() {
        for c in 0..app.sheet.max_cols() {
            if cell(app, r, c) == Some("") {
                out.push((r, c));
            }
        }
    }
    out
}

#[test]
fn delete_cells_in_the_row() {
    let mut app = filled(5, 5);
    app.cursor_row = 1;
    app.cursor_col = 2;
    type_keys(&mut app, "dh");
    assert_eq!(empty_cells(&app), vec![(1, 1)]);
    assert_eq!((app.cursor_row, app.cursor_col), (1, 1));

    let mut app = filled(5, 5);
    app.cursor_row = 1;
    app.cursor_col = 2;
    type_keys(&mut app, "3dh");
    assert_eq!(empty_cells(&app), vec![(1, 0), (1, 1)]);
    assert_eq!((app.cursor_row, app.cursor_col), (1, 0));

    let mut app = filled(5, 5);
    app.cursor_row = 1;
    app.cursor_col = 2;
    type_keys(&mut app, "2dl");
    assert_eq!(empty_cells(&app), vec![(1, 3), (1, 4)]);
    assert_eq!((app.cursor_row, app.cursor_col), (1, 2));
    assert_eq!(cell(&app, 1, 2), Some("12"));

    let mut app = filled(5, 5);
    app.cursor_row = 1;
    app.cursor_col = 2;
    type_keys(&mut app, "d0");
    assert_eq!(empty_cells(&app), vec![(1, 0), (1, 1)]);
    assert_eq!(app.cursor_col, 0);

    let mut app = filled(5, 5);
    app.cursor_row = 1;
    app.cursor_col = 2;
    type_keys(&mut app, "d$");
    assert_eq!(empty_cells(&app), vec![(1, 2), (1, 3), (1, 4)]);
    assert_eq!(app.cursor_col, 2);

    // Counts multiply: 2d3h clears six cells to the left, as many as there are.
    let mut app = filled(5, 8);
    app.cursor_row = 1;
    app.cursor_col = 6;
    type_keys(&mut app, "2d3h");
    assert_eq!(empty_cells(&app), vec![(1, 0), (1, 1), (1, 2), (1, 3), (1, 4), (1, 5)]);
    assert_eq!(app.cursor_col, 0);
}

#[test]
fn delete_whole_rows() {
    let mut app = filled(6, 3);
    app.cursor_row = 1;
    app.cursor_col = 2;
    type_keys(&mut app, "dj");
    assert_eq!(empty_cells(&app), vec![(1, 0), (1, 1), (1, 2), (2, 0), (2, 1), (2, 2)]);
    assert_eq!((app.cursor_row, app.cursor_col), (1, 2));

    let mut app = filled(6, 3);
    app.cursor_row = 3;
    type_keys(&mut app, "dk");
    assert_eq!(empty_cells(&app), vec![(2, 0), (2, 1), (2, 2), (3, 0), (3, 1), (3, 2)]);
    assert_eq!(app.cursor_row, 2);

    let mut app = filled(6, 3);
    app.cursor_row = 4;
    type_keys(&mut app, "3dd");
    assert_eq!(empty_cells(&app), vec![(4, 0), (4, 1), (4, 2), (5, 0), (5, 1), (5, 2)]);
    assert_eq!(app.cursor_row, 4);
}

#[test]
fn column_delete_mirrors_row_delete() {
    let mut app = filled(5, 5);
    app.cursor_row = 1;
    app.cursor_col = 2;
    type_keys(&mut app, "2gdj");
    assert_eq!(empty_cells(&app), vec![(2, 2), (3, 2)]);
    assert_eq!((app.cursor_row, app.cursor_col), (1, 2));

    let mut app = filled(5, 5);
    app.cursor_row = 3;
    app.cursor_col = 2;
    type_keys(&mut app, "gdk");
    assert_eq!(empty_cells(&app), vec![(2, 2)]);
    assert_eq!(app.cursor_row, 2);

    let mut app = filled(3, 5);
    app.cursor_col = 2;
    type_keys(&mut app, "gdl");
    assert_eq!(empty_cells(&app), vec![(0, 3), (1, 3), (2, 3)]);
    assert_eq!(app.cursor_col, 2);

    let mut app = filled(3, 5);
    app.cursor_col = 2;
    type_keys(&mut app, "2gdh");
    assert_eq!(empty_cells(&app), vec![(0, 0), (0, 1), (1, 0), (1, 1), (2, 0), (2, 1)]);
    assert_eq!(app.cursor_col, 0);

    let mut app = filled(3, 5);
    app.cursor_col = 4;
    type_keys(&mut app, "2gdd");
    assert_eq!(empty_cells(&app), vec![(0, 4), (1, 4), (2, 4)]);

    let mut app = filled(5, 3);
    app.cursor_row = 3;
    app.cursor_col = 1;
    type_keys(&mut app, "gd$");
    assert_eq!(empty_cells(&app), vec![(3, 1), (4, 1)]);
    let mut app = filled(5, 3);
    app.cursor_row = 3;
    app.cursor_col = 1;
    type_keys(&mut app, "gd0");
    assert_eq!(empty_cells(&app), vec![(0, 1), (1, 1), (2, 1), (3, 1)]);
    assert_eq!((app.cursor_row, app.cursor_col), (0, 1));
}

#[test]
fn delete_recalculates_dependent_cells() {
    let mut app = filled(3, 3);
    app.sheet.set_cell(2, 2, "=A1+B1".to_string());
    match type_keys(&mut app, "dd") {
        Some(Effect::RecalculateEach(recalcs)) => {
            assert_eq!(recalcs.len(), 3);
            assert_eq!(recalcs[0].order, vec![(0, 0), (2, 2)]);
            assert_eq!(recalcs[1].order, vec![(0, 1), (2, 2)]);
            assert_eq!(recalcs[2].order, vec![(0, 2)]);
            assert!(recalcs.iter().all(|rc| !rc.circular));
        }
        _ => panic!("a delete recalculates"),
    }
    assert_eq!(cell(&app, 2, 2), Some("=A1+B1"));
    // Yank, paste and undo are parsed and change nothing.
    let before = empty_cells(&app);
    assert!(matches!(type_keys(&mut app, "yy"), Some(Effect::Nothing)));
    assert!(matches!(type_keys(&mut app, "p"), Some(Effect::Nothing)));
    assert!(matches!(type_keys(&mut app, "u"), Some(Effect::Nothing)));
    assert_eq!(empty_cells(&app), before);
}
