use qrust::{Cell, Circuit, Op};

#[test]
fn new_circuit_is_empty() {
    let c = Circuit::new(3, 4);
    assert_eq!(c.qubits, 3);
    assert_eq!(c.cols.len(), 4);
    assert!(c.cols.iter().all(|col| col.len() == 3 && col.iter().all(|x| x.is_none())));
    assert!(c.ops().is_empty());
}

#[test]
fn place_single_replaces_the_cell() {
    let mut c = Circuit::new(2, 2);
    c.place_single(1, 0, Cell::H);
    c.place_single(1, 0, Cell::Z);
    assert_eq!(c.cols[1][0], Some(Cell::Z));
    assert_eq!(c.ops(), vec![Op::Z(0)]);
}

#[test]
fn place_cnot_sets_both_ends() {
    let mut c = Circuit::new(3, 1);
    assert!(c.place_cnot(0, 2, 0));
    assert_eq!(c.cols[0], vec![Some(Cell::CnotTarg(2)), None, Some(Cell::CnotCtrl(0))]);
    assert_eq!(c.ops(), vec![Op::Cnot { control: 2, target: 0 }]);
}

#[test]
fn place_cnot_refuses_bad_qubits() {
    let mut c = Circuit::new(2, 1);
    c.place_single(0, 0, Cell::X);
    assert!(!c.place_cnot(0, 1, 1));
    assert!(!c.place_cnot(0, 0, 2));
    assert!(!c.place_cnot(0, 5, 0));
    assert_eq!(c.cols[0], vec![Some(Cell::X), None]);
}

#[test]
fn clear_removes_both_ends_of_a_cnot() {
    let mut c = Circuit::new(3, 1);
    assert!(c.place_cnot(0, 0, 2));
    c.place_single(0, 1, Cell::S);
    c.clear(0, 2);
    assert_eq!(c.cols[0], vec![None, Some(Cell::S), None]);
    assert!(c.place_cnot(0, 0, 2));
    c.clear(0, 0);
    assert_eq!(c.cols[0], vec![None, Some(Cell::S), None]);
}

#[test]
fn clear_twice_is_clear_once() {
    let mut c = Circuit::new(2, 1);
    assert!(c.place_cnot(0, 0, 1));
    c.clear(0, 1);
    let once = c.cols.clone();
    c.clear(0, 1);
    assert_eq!(c.cols, once);
}

#[test]
fn placing_over_a_cnot_end_removes_the_cnot() {
    let mut c = Circuit::new(2, 1);
    assert!(c.place_cnot(0, 0, 1));
    c.place_single(0, 1, Cell::Y);
    assert_eq!(c.cols[0], vec![None, Some(Cell::Y)]);
}

#[test]
fn cnot_over_another_cnot_replaces_it() {
    let mut c = Circuit::new(4, 1);
    assert!(c.place_cnot(0, 0, 1));
    assert!(c.place_cnot(0, 1, 3));
    assert_eq!(
        c.cols[0],
        vec![None, Some(Cell::CnotCtrl(3)), None, Some(Cell::CnotTarg(1))]
    );
}

#[test]
fn ops_run_column_by_column_and_qubit_by_qubit() {
    let mut c = Circuit::new(3, 3);
    c.place_single(0, 2, Cell::T);
    c.place_single(0, 0, Cell::H);
    assert!(c.place_cnot(1, 1, 0));
    c.place_single(1, 2, Cell::Y);
    c.place_single(2, 1, Cell::S);
    assert_eq!(
        c.ops(),
        vec![
            Op::H(0),
            Op::T(2),
            Op::Cnot { control: 1, target: 0 },
            Op::Y(2),
            Op::S(1),
        ]
    );
}

#[test]
fn symbols_draw_each_cell() {
    let cells = [
        (Cell::H, 'H'),
        (Cell::X, 'X'),
        (Cell::Y, 'Y'),
        (Cell::Z, 'Z'),
        (Cell::S, 'S'),
        (Cell::T, 'T'),
        (Cell::CnotCtrl(1), '●'),
        (Cell::CnotTarg(0), '⊕'),
    ];
    for (cell, ch) in cells {
        assert_eq!(cell.symbol(), ch);
    }
    assert_eq!(qrust::glyph(None), '─');
    assert_eq!(qrust::glyph(Some(Cell::Z)), 'Z');
}

#[test]
fn format_bits_writes_highest_qubit_first() {
    assert_eq!(qrust::format_bits(0b011, 4), "0011");
    assert_eq!(qrust::format_bits(5, 3), "101");
    assert_eq!(qrust::format_bits(6, 0), "");
    assert_eq!(qrust::format_bits(1, 1), "1");
}

#[test]
fn bar_fills_from_the_left() {
    assert_eq!(qrust::bar(3, 5), "███░░");
    assert_eq!(qrust::bar(0, 4), "░░░░");
    assert_eq!(qrust::bar(9, 4), "████");
    assert_eq!(qrust::bar(2, 0), "");
}
