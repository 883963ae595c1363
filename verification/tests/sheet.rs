use rsheet::address::{col_to_letter, letter_to_col};
use rsheet::cell::CellError;
use rsheet::formula::{classify_raw, compile, extract_references, formula_text, text_fits_exec, RawText, Step};
use rsheet::lexer::{tokenize, Token};
use rsheet::sheet::Spreadsheet;

fn chars(s: &str) -> Vec<char> {
    s.chars().collect()
}

fn raw(sheet: &Spreadsheet, r: usize, c: usize) -> String {
    sheet.get_cell(r, c).cloned().unwrap()
}

fn position(order: &[(usize, usize)], cell: (usize, usize)) -> usize {
    order.iter().position(|&p| p == cell).unwrap()
}

// ---------------------------------------------------------------------------
// Errors and column letters
// ---------------------------------------------------------------------------

#[test]
fn error_texts() {
    assert_eq!(CellError::Syntax.as_str(), "#SYNTAX!");
    assert_eq!(CellError::DivByZero.as_str(), "#DIV/0!");
    assert_eq!(CellError::Circular.as_str(), "#CIRCULAR!");
    assert_eq!(CellError::Ref.as_str(), "#REF!");
    assert_eq!(CellError::Value.as_str(), "#VALUE!");
}

#[test]
fn column_letters() {
    assert_eq!(Spreadsheet::col_to_letter(0), "A");
    assert_eq!(Spreadsheet::col_to_letter(25), "Z");
    assert_eq!(col_to_letter(26), "AA");
    assert_eq!(col_to_letter(27), "AB");
    assert_eq!(col_to_letter(701), "ZZ");
    assert_eq!(col_to_letter(702), "AAA");
}

#[test]
fn letters_to_column() {
    assert_eq!(letter_to_col(&chars("A")), Ok(0));
    assert_eq!(letter_to_col(&chars("Z")), Ok(25));
    assert_eq!(letter_to_col(&chars("AA")), Ok(26));
    assert_eq!(letter_to_col(&chars("ZZ")), Ok(701));
    assert_eq!(letter_to_col(&chars("")), Err(CellError::Syntax));
    assert_eq!(letter_to_col(&chars("a")), Err(CellError::Syntax));
    assert_eq!(letter_to_col(&chars("A1")), Err(CellError::Syntax));
}

#[test]
fn letters_round_trip() {
    for col in [0usize, 1, 25, 26, 51, 52, 675, 676, 701, 702, 18277, 18278, 123456] {
        let letters = col_to_letter(col);
        assert_eq!(letter_to_col(&chars(&letters)), Ok(col));
    }
}

// ---------------------------------------------------------------------------
// Tokens and programs
// ---------------------------------------------------------------------------

#[test]
fn tokenize_formula() {
    let tokens = tokenize(&chars(" A1+2.5*( b3 )\t-.5 ")).unwrap();
    assert_eq!(tokens.len(), 9);
    assert!(matches!(tokens[0], Token::CellRef(0, 0)));
    assert!(matches!(tokens[1], Token::Plus));
    assert!(matches!(&tokens[2], Token::Number(t) if t == "2.5"));
    assert!(matches!(tokens[3], Token::Star));
    assert!(matches!(tokens[4], Token::LParen));
    assert!(matches!(tokens[5], Token::CellRef(2, 1)));
    assert!(matches!(tokens[6], Token::RParen));
    assert!(matches!(tokens[7], Token::Minus));
    assert!(matches!(&tokens[8], Token::Number(t) if t == ".5"));
}

#[test]
fn tokenize_errors() {
    assert!(matches!(tokenize(&chars("A0")), Err(CellError::Ref)));
    assert!(matches!(tokenize(&chars("A")), Err(CellError::Syntax)));
    assert!(matches!(tokenize(&chars("1.2.3")), Err(CellError::Syntax)));
    assert!(matches!(tokenize(&chars(".")), Err(CellError::Syntax)));
    assert!(matches!(tokenize(&chars("2 # 3")), Err(CellError::Syntax)));
    assert!(matches!(tokenize(&chars("A99999999999999999999999")), Err(CellError::Syntax)));
    assert!(tokenize(&chars("")).unwrap().is_empty());
}

fn describe(prog: &[Step]) -> String {
    let mut out = String::new();
    for step in prog {
        let part = match step {
            Step::Push(t) => format!("push {} ", t),
            Step::Load(r, c, rep) => format!("load {} {} {} ", r, c, rep),
            Step::Negate => "neg ".to_string(),
            Step::Add => "add ".to_string(),
            Step::Subtract => "sub ".to_string(),
            Step::Multiply => "mul ".to_string(),
            Step::Divide(rep) => format!("div {} ", rep),
            Step::Call(name, n, rep) => format!("call {} {} {} ", name, n, rep),
            Step::Fail => "fail ".to_string(),
        };
        out.push_str(&part);
    }
    out.trim_end().to_string()
}

#[test]
fn compile_respects_precedence() {
    let prog = compile(&chars("1+2*3")).unwrap();
    assert_eq!(describe(&prog), "push 1 push 2 push 3 mul add");
    let prog = compile(&chars("(1+2)*3")).unwrap();
    assert_eq!(describe(&prog), "push 1 push 2 add push 3 mul");
    let prog = compile(&chars("8-2-1")).unwrap();
    assert_eq!(describe(&prog), "push 8 push 2 sub push 1 sub");
    let prog = compile(&chars("--A1")).unwrap();
    assert_eq!(describe(&prog), "load 0 0 true neg neg");
    let prog = compile(&chars("+A1")).unwrap();
    assert_eq!(describe(&prog), "load 0 0 true");
}

#[test]
fn compile_syntax_errors() {
    assert_eq!(describe(&compile(&chars("")).unwrap()), "fail");
    assert_eq!(describe(&compile(&chars("1+")).unwrap()), "push 1 fail");
    assert_eq!(describe(&compile(&chars("(1")).unwrap()), "push 1 fail");
    assert_eq!(describe(&compile(&chars("1 2")).unwrap()), "push 1 fail");
    assert_eq!(describe(&compile(&chars(")")).unwrap()), "fail");
    assert!(matches!(compile(&chars("1+A0")), Err(CellError::Ref)));
}

#[test]
fn compile_marks_which_errors_are_reported() {
    // A run-time error is reported as itself only when nothing but closing brackets follow.
    assert_eq!(describe(&compile(&chars("1/0")).unwrap()), "push 1 push 0 div true");
    assert_eq!(describe(&compile(&chars("(1/0)")).unwrap()), "push 1 push 0 div true");
    assert_eq!(describe(&compile(&chars("1/0+1")).unwrap()), "push 1 push 0 div false push 1 add");
    assert_eq!(describe(&compile(&chars("1/0)")).unwrap()), "push 1 push 0 div false fail");
    assert_eq!(describe(&compile(&chars("A1+B2")).unwrap()), "load 0 0 false load 1 1 true add");
}

#[test]
fn raw_text_kinds() {
    assert!(matches!(classify_raw("  =A1 "), RawText::Formula));
    assert!(matches!(classify_raw(" \t "), RawText::Blank));
    assert!(matches!(classify_raw(""), RawText::Blank));
    assert!(matches!(classify_raw(" 12 "), RawText::Literal(t) if t == "12"));
    assert_eq!(formula_text("  = A1+1 ").map(|b| b.into_iter().collect::<String>()), Some(" A1+1".to_string()));
    assert_eq!(formula_text("A1"), None);
}

#[test]
fn references_inside_the_grid() {
    let refs = extract_references(&chars("A1+B2*A1+Z99-(C3)"), 10, 10);
    assert_eq!(refs, vec![(0, 0), (1, 1), (2, 2)]);
    assert!(extract_references(&chars("A1+"), 10, 10) == vec![(0, 0)]);
    assert!(extract_references(&chars("A1+#"), 10, 10).is_empty());
}

#[test]
fn text_that_fits() {
    assert!(text_fits_exec("=A1+B2"));
    assert!(text_fits_exec("plain text AAAAAAAAAAAAAAAAAAAAAAAA1"));
    assert!(!text_fits_exec("=AAAAAAAAAAAAAAAAAAAAAAAA1"));
    assert!(text_fits_exec("=AAAAAAAAAAAAAAAAAAAAAAAA0"));
}

// ---------------------------------------------------------------------------
// The sheet
// ---------------------------------------------------------------------------

#[test]
fn new_sheet_is_empty() {
    let sheet = Spreadsheet::new(3, 4);
    assert_eq!(sheet.max_rows(), 3);
    assert_eq!(sheet.max_cols(), 4);
    assert!(sheet.loaded_path().is_none());
    assert_eq!(raw(&sheet, 2, 3), "");
    assert!(sheet.get_cell(3, 0).is_none());
    assert!(sheet.get_cell(0, 4).is_none());
}

#[test]
fn set_cell_outside_the_grid_changes_nothing() {
    let mut sheet = Spreadsheet::new(3, 3);
    assert!(sheet.set_cell(3, 0, "1".to_string()).is_none());
    assert!(sheet.set_cell(0, 3, "1".to_string()).is_none());
}

#[test]
fn set_cell_orders_dependents_after_their_dependencies() {
    let mut sheet = Spreadsheet::new(10, 10);
    sheet.set_cell(0, 0, "10".to_string()).unwrap();
    sheet.set_cell(1, 0, "=A1*2".to_string()).unwrap();
    sheet.set_cell(2, 0, "=A2+A1".to_string()).unwrap();
    sheet.set_cell(3, 0, "=A3".to_string()).unwrap();
    let rc = sheet.set_cell(0, 0, "5".to_string()).unwrap();
    assert!(!rc.circular);
    assert_eq!(rc.order.len(), 4);
    assert_eq!(rc.order[0], (0, 0));
    assert!(position(&rc.order, (1, 0)) < position(&rc.order, (2, 0)));
    assert!(position(&rc.order, (2, 0)) < position(&rc.order, (3, 0)));
    assert_eq!(raw(&sheet, 0, 0), "5");
    // A cell nobody depends on recomputes alone.
    let rc = sheet.set_cell(5, 5, "=A1".to_string()).unwrap();
    assert_eq!(rc.order, vec![(5, 5)]);
}

#[test]
fn set_cell_detects_cycles() {
    let mut sheet = Spreadsheet::new(10, 10);
    let rc = sheet.set_cell(0, 0, "=A1+1".to_string()).unwrap();
    assert!(rc.circular);
    assert_eq!(raw(&sheet, 0, 0), "=A1+1");

    sheet.set_cell(0, 1, "10".to_string()).unwrap();
    let rc = sheet.set_cell(1, 1, "=B1+1".to_string()).unwrap();
    assert!(!rc.circular);
    let rc = sheet.set_cell(0, 1, "=B2+1".to_string()).unwrap();
    assert!(rc.circular);
    // The circular cell depends on nothing, so B2 still follows it.
    assert_eq!(rc.order, vec![(0, 1), (1, 1)]);

    // A longer cycle: C1 <- C2 <- C3, then C1 = C3.
    sheet.set_cell(1, 2, "=C1*2".to_string()).unwrap();
    sheet.set_cell(2, 2, "=C2+10".to_string()).unwrap();
    let rc = sheet.set_cell(0, 2, "=C3+5".to_string()).unwrap();
    assert!(rc.circular);
    assert_eq!(rc.order, vec![(0, 2), (1, 2), (2, 2)]);
}

#[test]
fn overwriting_a_formula_drops_its_old_dependencies() {
    let mut sheet = Spreadsheet::new(5, 5);
    sheet.set_cell(1, 0, "=A1".to_string()).unwrap();
    sheet.set_cell(1, 0, "7".to_string()).unwrap();
    let rc = sheet.set_cell(0, 0, "1".to_string()).unwrap();
    assert_eq!(rc.order, vec![(0, 0)]);
    // And a formula may now point the other way.
    let rc = sheet.set_cell(0, 0, "=A2".to_string()).unwrap();
    assert!(!rc.circular);
}

#[test]
fn rebuild_marks_cells_that_close_cycles() {
    let records = vec![
        vec!["=B1".to_string(), "=A1".to_string(), "3".to_string()],
        vec!["=C1*2".to_string(), "=A2".to_string()],
    ];
    let (mut sheet, circular) = Spreadsheet::from_records(records, 4, 3, Some("data.csv".to_string()));
    // Row-major: A1 -> B1 is added first, so B1 -> A1 would close the cycle.
    assert_eq!(circular, vec![(0, 1)]);
    assert_eq!(sheet.loaded_path().as_deref(), Some("data.csv"));
    assert_eq!(raw(&sheet, 1, 1), "=A2");
    assert_eq!(raw(&sheet, 1, 2), "");
    assert_eq!(raw(&sheet, 3, 0), "");
    let again = sheet.rebuild_graph_and_evaluate_all();
    assert_eq!(again, vec![(0, 1)]);
    let rc = sheet.set_cell(0, 2, "4".to_string()).unwrap();
    assert_eq!(rc.order, vec![(0, 2), (1, 0), (1, 1)]);
}

#[test]
fn loading_keeps_long_records_and_drops_extra_rows() {
    let records = vec![
        vec!["a".to_string(), "b".to_string(), "c".to_string(), "d".to_string()],
        vec!["e".to_string()],
        vec!["f".to_string()],
    ];
    let (sheet, circular) = Spreadsheet::from_records(records, 2, 2, None);
    assert!(circular.is_empty());
    assert_eq!(raw(&sheet, 0, 3), "d");
    assert_eq!(raw(&sheet, 1, 0), "e");
    assert_eq!(raw(&sheet, 1, 1), "");
    assert!(sheet.get_cell(1, 2).is_none());
    assert!(sheet.get_cell(2, 0).is_none());
}

#[test]
fn saved_records_cover_the_used_rectangle() {
    let mut sheet = Spreadsheet::new(6, 5);
    sheet.set_cell(1, 2, "x".to_string()).unwrap();
    sheet.set_cell(3, 0, "=C2".to_string()).unwrap();
    let recs = sheet.csv_records();
    assert_eq!(recs.len(), 4);
    for row in &recs {
        assert_eq!(row.len(), 3);
    }
    assert_eq!(recs[1][2], "x");
    assert_eq!(recs[3][0], "=C2");
    assert_eq!(recs[0][0], "");

    let empty = Spreadsheet::new(3, 3);
    assert_eq!(empty.csv_records(), vec![vec![String::new()]]);
}

#[test]
fn save_then_load_gives_back_every_cell() {
    let mut sheet = Spreadsheet::new(6, 5);
    sheet.set_cell(0, 4, "top right".to_string()).unwrap();
    sheet.set_cell(2, 1, "=E1+1".to_string()).unwrap();
    sheet.set_cell(4, 0, "42".to_string()).unwrap();
    let recs = sheet.csv_records();
    let (loaded, circular) = Spreadsheet::from_records(recs, 6, 5, None);
    assert!(circular.is_empty());
    for r in 0..6 {
        for c in 0..5 {
            assert_eq!(raw(&loaded, r, c), raw(&sheet, r, c));
        }
    }
}

/// The stack depth a program leaves, or `None` when it stops at a failing step.
fn depth_left(prog: &[Step]) -> Option<usize> {
    let mut depth: usize = 0;
    for step in prog {
        match step {
            Step::Push(_) | Step::Load(..) => depth += 1,
            Step::Negate => assert!(depth >= 1),
            Step::Fail => return None,
            Step::Call(_, n, _) => {
                assert!(depth >= *n);
                depth = depth - n + 1;
            }
            _ => {
                assert!(depth >= 2);
                depth -= 1;
            }
        }
    }
    Some(depth)
}

#[test]
fn programs_leave_one_value_or_stop() {
    for text in ["pow(2,8)", "sum()", "max(1, min(2, A3), (4))+1", "sqrt(", "sum(1,", "f(1 2)", "1", "-(A1+2)*B3/4", "((1))", "1+2*3-4/5", "--+-7", "1+", "(", "1 2", "*", "A1 B1 C1", "(1+2"] {
        let prog = compile(&chars(text)).unwrap();
        let left = depth_left(&prog);
        assert!(left == Some(1) || left.is_none(), "{}", text);
    }
}

#[test]
fn csv_bytes_load_and_save() {
    let bytes = b"1,=A1+1,x\n\"a,b\",,\n";
    let (sheet, circular) = Spreadsheet::load_csv_bytes(bytes, 4, 3, Some("f.csv".to_string())).unwrap();
    assert!(circular.is_empty());
    assert_eq!(raw(&sheet, 0, 1), "=A1+1");
    assert_eq!(raw(&sheet, 1, 0), "a,b");
    assert_eq!(raw(&sheet, 2, 0), "");
    assert_eq!(sheet.csv_bytes(), b"1,=A1+1,x\n\"a,b\",,\n".to_vec());
    // Records of unequal lengths are a csv error; only the first `max_rows` are read.
    assert!(Spreadsheet::load_csv_bytes(b"1,2\n3\n", 4, 3, None).is_none());
    assert!(Spreadsheet::load_csv_bytes(b"1,2\n3\n", 1, 3, None).is_some());
    // A column that does not fit in `usize` is refused.
    assert!(Spreadsheet::load_csv_bytes(b"=AAAAAAAAAAAAAAAAAAAAAAAA1\n", 2, 2, None).is_none());
}

#[test]
fn file_round_trip_through_bytes() {
    let mut sheet = Spreadsheet::new(6, 5);
    sheet.set_cell(0, 4, "top, \"right\"".to_string()).unwrap();
    sheet.set_cell(2, 1, "=E1+1".to_string()).unwrap();
    let bytes = sheet.csv_bytes();
    let (loaded, _) = Spreadsheet::load_csv_bytes(&bytes, 6, 5, None).unwrap();
    for r in 0..6 {
        for c in 0..5 {
            assert_eq!(raw(&loaded, r, c), raw(&sheet, r, c));
        }
    }
}

#[test]
fn try_set_cell_refuses_overflowing_columns() {
    let mut sheet = Spreadsheet::new(3, 3);
    assert!(sheet.try_set_cell(0, 0, "=AAAAAAAAAAAAAAAAAAAAAAAA1".to_string()).is_none());
    assert_eq!(raw(&sheet, 0, 0), "");
    assert!(matches!(sheet.try_set_cell(0, 0, "=B1".to_string()), Some(Some(_))));
    assert!(matches!(sheet.try_set_cell(5, 0, "=AAAAAAAAAAAAAAAAAAAAAAAA1".to_string()), Some(None)));
}

#[test]
fn function_calls_in_formulas() {
    let tokens = tokenize(&chars("pow(2, A1)")).unwrap();
    assert_eq!(tokens.len(), 6);
    assert!(matches!(&tokens[0], Token::Name(n) if n == "POW"));
    assert!(matches!(tokens[1], Token::LParen));
    assert!(matches!(tokens[3], Token::Comma));
    // A name must be followed right away by its bracket.
    assert!(matches!(tokenize(&chars("pow (2)")), Err(CellError::Syntax)));
    assert_eq!(describe(&compile(&chars("pow(2,8)")).unwrap()), "push 2 push 8 call POW 2 true");
    assert_eq!(describe(&compile(&chars("Sum()")).unwrap()), "call SUM 0 true");
    assert_eq!(
        describe(&compile(&chars("sum(A1, 2*3)+1")).unwrap()),
        "load 0 0 false push 2 push 3 mul call SUM 2 false push 1 add"
    );
    assert_eq!(describe(&compile(&chars("sqrt(1/0)")).unwrap()), "push 1 push 0 div true call SQRT 1 true");
    assert_eq!(describe(&compile(&chars("sum(1,")).unwrap()), "push 1 fail");
    assert_eq!(describe(&compile(&chars("sum(1 2)")).unwrap()), "push 1 fail");
    let refs = extract_references(&chars("max(A1, B2) + min(C3, A1)"), 10, 10);
    assert_eq!(refs, vec![(0, 0), (1, 1), (2, 2)]);
    let mut sheet = Spreadsheet::new(5, 5);
    sheet.set_cell(0, 0, "=pow(B1,2)".to_string()).unwrap();
    let rc = sheet.set_cell(0, 1, "3".to_string()).unwrap();
    assert_eq!(rc.order, vec![(0, 1), (0, 0)]);
}

#[test]
fn whole_sheet_evaluation_order_puts_dependencies_first() {
    let records = vec![
        vec!["=B1".to_string(), "=C1".to_string(), "5".to_string()],
        vec!["=A1+A3".to_string()],
        vec!["=B1*2".to_string()],
    ];
    let (sheet, circular) = Spreadsheet::from_records(records, 3, 3, None);
    assert!(circular.is_empty());
    let order = sheet.evaluation_order();
    assert_eq!(order.len(), 9);
    assert!(position(&order, (0, 2)) < position(&order, (0, 1)));
    assert!(position(&order, (0, 1)) < position(&order, (0, 0)));
    assert!(position(&order, (0, 0)) < position(&order, (1, 0)));
    assert!(position(&order, (2, 0)) < position(&order, (1, 0)));
    assert!(position(&order, (0, 1)) < position(&order, (2, 0)));
}
