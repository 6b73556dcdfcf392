use qrust::{Action, Cell, Editor, Key, Look, Notice};

#[test]
fn new_editor_starts_at_origin() {
    let e = Editor::new(4, 12);
    assert_eq!((e.cursor_col, e.cursor_q), (0, 0));
    assert_eq!(e.pending_cnot, None);
    assert_eq!(e.notice, Notice::Empty);
    assert!(!e.exit);
    assert_eq!(e.circuit.cols.len(), 12);
    assert_eq!(e.circuit.qubits, 4);
}

#[test]
fn cursor_stays_on_the_grid() {
    let mut e = Editor::new(2, 3);
    e.on_key(Key::Left);
    e.on_key(Key::Down);
    assert_eq!((e.cursor_col, e.cursor_q), (0, 0));
    for _ in 0..5 {
        e.on_key(Key::Right);
        e.on_key(Key::Up);
    }
    assert_eq!((e.cursor_col, e.cursor_q), (2, 1));
    e.on_key(Key::Left);
    e.on_key(Key::Down);
    assert_eq!((e.cursor_col, e.cursor_q), (1, 0));
}

#[test]
fn letters_place_gates_under_the_cursor() {
    let mut e = Editor::new(2, 2);
    e.on_key(Key::Char('h'));
    e.on_key(Key::Up);
    e.on_key(Key::Char('t'));
    e.on_key(Key::Right);
    e.on_key(Key::Char('y'));
    assert_eq!(e.circuit.cols[0], vec![Some(Cell::H), Some(Cell::T)]);
    assert_eq!(e.circuit.cols[1], vec![None, Some(Cell::Y)]);
}

#[test]
fn cnot_is_placed_in_two_steps() {
    let mut e = Editor::new(3, 2);
    e.on_key(Key::Right);
    e.on_key(Key::Char('c'));
    assert_eq!(e.pending_cnot, Some((1, 0)));
    assert_eq!(e.notice, Notice::CnotPrompt);
    assert_eq!(e.look(1, 0), Look::Cursor);
    e.on_key(Key::Up);
    e.on_key(Key::Up);
    assert_eq!(e.look(1, 0), Look::Pending);
    assert_eq!(e.on_key(Key::Enter), Action::Nothing);
    assert_eq!(e.pending_cnot, None);
    assert_eq!(e.notice, Notice::Empty);
    assert_eq!(
        e.circuit.cols[1],
        vec![Some(Cell::CnotCtrl(2)), None, Some(Cell::CnotTarg(0))]
    );
    assert_eq!(e.look(1, 0), Look::Occupied);
    assert_eq!(e.look(0, 0), Look::Plain);
}

#[test]
fn cnot_to_another_column_is_cancelled() {
    let mut e = Editor::new(2, 2);
    e.on_key(Key::Char('c'));
    e.on_key(Key::Right);
    e.on_key(Key::Up);
    e.on_key(Key::Enter);
    assert_eq!(e.notice, Notice::CnotWrongColumn);
    assert_eq!(e.pending_cnot, None);
    assert!(e.circuit.cols.iter().all(|c| c.iter().all(|x| x.is_none())));
}

#[test]
fn cnot_to_its_own_qubit_is_cancelled() {
    let mut e = Editor::new(2, 2);
    e.on_key(Key::Char('c'));
    e.on_key(Key::Enter);
    assert_eq!(e.notice, Notice::CnotSameQubit);
    assert_eq!(e.pending_cnot, None);
    assert!(e.circuit.cols.iter().all(|c| c.iter().all(|x| x.is_none())));
}

#[test]
fn esc_cancels_a_pending_cnot_before_it_quits() {
    let mut e = Editor::new(2, 2);
    e.on_key(Key::Char('c'));
    e.on_key(Key::Esc);
    assert_eq!(e.pending_cnot, None);
    assert!(!e.exit);
    e.on_key(Key::Esc);
    assert!(e.exit);
}

#[test]
fn q_quits_only_without_a_pending_cnot() {
    let mut e = Editor::new(2, 2);
    e.on_key(Key::Char('c'));
    e.on_key(Key::Char('q'));
    assert!(!e.exit);
    assert_eq!(e.pending_cnot, Some((0, 0)));
    assert_eq!(e.notice, Notice::Empty);
    e.on_key(Key::Esc);
    e.on_key(Key::Char('q'));
    assert!(e.exit);
}

#[test]
fn backspace_and_delete_clear_the_cell() {
    let mut e = Editor::new(2, 1);
    e.on_key(Key::Char('c'));
    e.on_key(Key::Up);
    e.on_key(Key::Enter);
    assert_eq!(e.circuit.cols[0], vec![Some(Cell::CnotCtrl(1)), Some(Cell::CnotTarg(0))]);
    e.on_key(Key::Backspace);
    assert_eq!(e.circuit.cols[0], vec![None, None]);
    e.on_key(Key::Char('x'));
    e.on_key(Key::Delete);
    assert_eq!(e.circuit.cols[0], vec![None, None]);
}

#[test]
fn r_asks_for_a_run() {
    let mut e = Editor::new(1, 1);
    assert_eq!(e.on_key(Key::Char('r')), Action::Run);
    assert_eq!(e.on_key(Key::Char('k')), Action::Nothing);
    assert_eq!(e.on_key(Key::Other), Action::Nothing);
}

#[test]
fn placing_a_gate_drops_a_pending_cnot() {
    let mut e = Editor::new(2, 1);
    e.on_key(Key::Char('c'));
    e.on_key(Key::Char('s'));
    assert_eq!(e.pending_cnot, None);
    assert_eq!(e.circuit.cols[0][0], Some(Cell::S));
}

#[test]
fn texts_of_notices_and_hints() {
    assert_eq!(Notice::Empty.text(), "");
    assert_eq!(
        Notice::CnotPrompt.text(),
        "cnot: move to target qubit (same column), Enter to confirm"
    );
    assert_eq!(
        Notice::CnotWrongColumn.text(),
        "cnot cancelled: target must be in the same column"
    );
    assert_eq!(Notice::CnotSameQubit.text(), "cnot cancelled: pick a different qubit");
    let mut e = Editor::new(2, 1);
    assert_eq!(
        e.hint(),
        "arrows move  ·  h x y z s t place  ·  c cnot  ·  ⌫ clear  ·  r run  ·  q quit"
    );
    e.on_key(Key::Char('c'));
    assert_eq!(e.hint(), "cnot: move to target qubit, Enter confirms  ·  Esc cancels");
}
