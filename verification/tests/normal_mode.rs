use rsheet::normal_mode::{Motion, NormalCommand, NormalModeState, YankKind};

#[test]
fn test_simple_hjkl() {
    let mut s = NormalModeState::new();
    assert!(matches!(
        s.process_char('h'),
        Some(NormalCommand::Move { motion: Motion::Left, count: 1 })
    ));
    assert!(matches!(
        s.process_char('j'),
        Some(NormalCommand::Move { motion: Motion::Down, count: 1 })
    ));
    assert!(matches!(
        s.process_char('k'),
        Some(NormalCommand::Move { motion: Motion::Up, count: 1 })
    ));
    assert!(matches!(
        s.process_char('l'),
        Some(NormalCommand::Move { motion: Motion::Right, count: 1 })
    ));
}

#[test]
fn test_count_navigation() {
    let mut s = NormalModeState::new();
    assert!(s.process_char('5').is_none());
    let cmd = s.process_char('j');
    assert!(matches!(cmd, Some(NormalCommand::Move { motion: Motion::Down, count: 5 })));
}

#[test]
fn test_dd() {
    let mut s = NormalModeState::new();
    assert!(s.process_char('d').is_none());
    assert!(matches!(s.process_char('d'), Some(NormalCommand::DeleteRow { count: 1 })));
}

#[test]
fn test_2dd() {
    let mut s = NormalModeState::new();
    s.process_char('2');
    s.process_char('d');
    assert!(matches!(s.process_char('d'), Some(NormalCommand::DeleteRow { count: 2 })));
}

#[test]
fn test_dj() {
    let mut s = NormalModeState::new();
    s.process_char('d');
    assert!(matches!(
        s.process_char('j'),
        Some(NormalCommand::Delete { motion: Motion::Down, count: 1 })
    ));
}

#[test]
fn test_2d2j() {
    let mut s = NormalModeState::new();
    s.process_char('2');
    s.process_char('d');
    s.process_char('2');
    let cmd = s.process_char('j');
    assert!(matches!(cmd, Some(NormalCommand::Delete { motion: Motion::Down, count: 4 })));
}

#[test]
fn test_yy() {
    let mut s = NormalModeState::new();
    s.process_char('y');
    assert!(matches!(
        s.process_char('y'),
        Some(NormalCommand::YankRow { count: 1, kind: YankKind::Relative })
    ));
}

#[test]
#[allow(non_snake_case)]
fn test_YY() {
    let mut s = NormalModeState::new();
    s.process_char('Y');
    assert!(matches!(
        s.process_char('Y'),
        Some(NormalCommand::YankRow { count: 1, kind: YankKind::Value })
    ));
}

#[test]
fn test_gyy() {
    let mut s = NormalModeState::new();
    s.process_char('g');
    s.process_char('y');
    assert!(matches!(
        s.process_char('y'),
        Some(NormalCommand::YankRow { count: 1, kind: YankKind::Raw })
    ));
}

#[test]
fn test_paste() {
    let mut s = NormalModeState::new();
    assert!(matches!(
        s.process_char('p'),
        Some(NormalCommand::OverwritePaste { before: false, count: 1 })
    ));
    assert!(matches!(
        s.process_char('P'),
        Some(NormalCommand::OverwritePaste { before: true, count: 1 })
    ));
}

#[test]
fn test_operator_cancel_on_esc_equivalent() {
    let mut s = NormalModeState::new();
    s.process_char('d');
    // Unknown char cancels
    assert!(matches!(s.process_char('x'), Some(NormalCommand::Reset)));
    assert!(s.is_idle());
}

#[test]
fn test_pending_keys_display() {
    let mut s = NormalModeState::new();
    s.process_char('2');
    assert_eq!(s.pending_keys(), "2");
    s.process_char('d');
    assert_eq!(s.pending_keys(), "2d");
    s.process_char('3');
    assert_eq!(s.pending_keys(), "2d3");
}

#[test]
fn test_zero_as_motion() {
    let mut s = NormalModeState::new();
    // '0' with no count → start of row
    assert!(matches!(
        s.process_char('0'),
        Some(NormalCommand::Move { motion: Motion::StartOfRow, .. })
    ));
}

#[test]
fn test_zero_as_count_part() {
    let mut s = NormalModeState::new();
    s.process_char('1');
    s.process_char('0'); // count1 becomes 10
    let cmd = s.process_char('j');
    assert!(matches!(cmd, Some(NormalCommand::Move { motion: Motion::Down, count: 10 })));
}

// ---------------------------------------------------------------------------
// Further cases
// ---------------------------------------------------------------------------

#[test]
fn counts_multiply_before_and_after_the_operator() {
    let mut s = NormalModeState::new();
    for c in ['2', 'd', '3'] {
        assert!(s.process_char(c).is_none());
    }
    assert!(matches!(s.process_char('j'), Some(NormalCommand::Delete { motion: Motion::Down, count: 6 })));
    assert!(s.is_idle());
    assert_eq!(s.pending_keys(), "");
}

#[test]
fn column_delete_and_raw_yank_use_both_counts() {
    let mut s = NormalModeState::new();
    for c in ['3', 'g', 'd', '2'] {
        assert!(s.process_char(c).is_none());
    }
    assert_eq!(s.pending_keys(), "3gd2");
    assert!(matches!(s.process_char('l'), Some(NormalCommand::ColDelete { motion: Motion::Right, count: 6 })));
    for c in ['g', 'y', '4'] {
        assert!(s.process_char(c).is_none());
    }
    assert!(matches!(
        s.process_char('$'),
        Some(NormalCommand::Yank { motion: Motion::EndOfRow, count: 4, kind: YankKind::Raw })
    ));
}

#[test]
fn gdd_deletes_columns_and_gp_pastes() {
    let mut s = NormalModeState::new();
    s.process_char('2');
    s.process_char('g');
    s.process_char('d');
    assert!(matches!(s.process_char('d'), Some(NormalCommand::DeleteCol { count: 2 })));
    s.process_char('g');
    assert!(matches!(s.process_char('P'), Some(NormalCommand::OverwritePaste { before: true, count: 1 })));
    s.process_char('3');
    s.process_char('g');
    assert!(matches!(s.process_char('p'), Some(NormalCommand::OverwritePaste { before: false, count: 3 })));
    assert!(s.is_idle());
}

#[test]
fn zero_after_operator_is_start_of_row() {
    let mut s = NormalModeState::new();
    s.process_char('d');
    assert!(matches!(s.process_char('0'), Some(NormalCommand::Delete { motion: Motion::StartOfRow, count: 1 })));
}

#[test]
fn reset_clears_pending_keys() {
    let mut s = NormalModeState::new();
    s.process_char('4');
    s.process_char('Y');
    assert_eq!(s.pending_keys(), "4Y");
    s.reset();
    assert!(s.is_idle());
    assert_eq!(s.pending_keys(), "");
}

#[test]
fn mode_and_file_keys() {
    let mut s = NormalModeState::new();
    assert!(matches!(s.process_char('a'), Some(NormalCommand::EnterVisualMode)));
    match s.process_char('i') {
        Some(NormalCommand::EnterInsertMode(Some(seed))) => assert_eq!(seed, ""),
        _ => panic!("'i' should enter insert mode with a blank buffer"),
    }
    match s.process_char('=') {
        Some(NormalCommand::EnterInsertMode(Some(seed))) => assert_eq!(seed, "="),
        _ => panic!("'=' should enter insert mode with '='"),
    }
    assert!(matches!(s.process_char('s'), Some(NormalCommand::Save)));
    assert!(matches!(s.process_char('Q'), Some(NormalCommand::Quit)));
    assert!(matches!(s.process_char('u'), Some(NormalCommand::Undo { count: 1 })));
    assert!(s.process_char('z').is_none());
    assert!(s.is_idle());
}

#[test]
fn accepts_refuses_an_overflowing_count() {
    let mut s = NormalModeState::new();
    for c in "1844674407370955161".chars() {
        assert!(s.accepts(c));
        s.process_char(c);
    }
    assert!(s.accepts('5'));
    assert!(!s.accepts('6'));
}

#[test]
fn word_motions_move_by_cells() {
    let mut s = NormalModeState::new();
    s.process_char('2');
    assert!(matches!(s.process_char('w'), Some(NormalCommand::Move { motion: Motion::WordForward, count: 2 })));
    assert!(matches!(s.process_char('b'), Some(NormalCommand::Move { motion: Motion::WordBack, count: 1 })));
    s.process_char('d');
    s.process_char('3');
    assert!(matches!(s.process_char('w'), Some(NormalCommand::Delete { motion: Motion::WordForward, count: 3 })));
}
