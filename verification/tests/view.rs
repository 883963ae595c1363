use rsheet::app::App;
use rsheet::sheet::Spreadsheet;
use rsheet::view::{column_header, row_label};

#[test]
fn row_labels_are_one_based_and_right_aligned() {
    assert_eq!(row_label(0, 5), "    1 ");
    assert_eq!(row_label(99, 5), "  100 ");
    assert_eq!(row_label(123456, 3), "123457 ");
}

#[test]
fn column_headers_are_centered() {
    assert_eq!(column_header(0, 11), "     A     |");
    assert_eq!(column_header(26, 11), "    AA     |");
    assert_eq!(column_header(27, 1), "AB|");
    assert_eq!(column_header(1, 0), "B|");
}

#[test]
fn status_line_shows_mode_cell_formula_and_message() {
    let mut app = App::new(Spreadsheet::new(10, 10));
    app.sheet.set_cell(2, 1, "=A1*2".to_string());
    app.cursor_row = 2;
    app.cursor_col = 1;
    app.status_message = "ok".to_string();
    assert_eq!(app.status_line(0), " NORMAL  [B3]  Formula: '=A1*2' ok");
    app.enter_visual_mode();
    app.status_message = "x".to_string();
    app.cursor_col = 0;
    let line = app.status_line(20);
    assert_eq!(line, " VISUAL  [A3] x     ");
    assert_eq!(line.chars().count(), 20);
    // Only a text that starts with '=' is shown as a formula.
    app.sheet.set_cell(2, 0, " =A1".to_string());
    assert_eq!(app.status_line(0), " VISUAL  [A3] x");
}

#[test]
fn overlay_title_names_the_cell() {
    let mut app = App::new(Spreadsheet::new(100, 40));
    app.cursor_row = 41;
    app.cursor_col = 27;
    assert_eq!(app.modal_title(), " Edit Cell [AB42] ");
}
