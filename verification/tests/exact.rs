//! The index bookkeeping of gate application, checked with integer
//! amplitudes whose gate arithmetic is exact.
use qrust::{Gate, Op, State};

/// Labels each amplitude pair with which gate touched it: X swaps, the others
/// mark the upper amplitude.
fn label(g: Gate, a: i64, b: i64) -> (i64, i64) {
    match g {
        Gate::X => (b, a),
        Gate::Z => (a, -b),
        _ => (a, b + 100),
    }
}

fn counting(n: usize) -> State<i64> {
    let mut s = State::zero(n, 0i64, 0i64);
    for i in 0..s.amps.len() {
        s.amps[i] = i as i64;
    }
    s
}

#[test]
fn zero_state_has_one_at_index_zero() {
    let s = State::zero(3, 0u8, 1u8);
    assert_eq!(s.qubits, 3);
    assert_eq!(s.amps, vec![1, 0, 0, 0, 0, 0, 0, 0]);
}

#[test]
fn x_swaps_pairs_differing_in_its_qubit() {
    let mut s = counting(3);
    s.apply(Op::X(1), &label);
    assert_eq!(s.amps, vec![2, 3, 0, 1, 6, 7, 4, 5]);
    let mut s = counting(3);
    s.apply(Op::X(0), &label);
    assert_eq!(s.amps, vec![1, 0, 3, 2, 5, 4, 7, 6]);
    let mut s = counting(3);
    s.apply(Op::X(2), &label);
    assert_eq!(s.amps, vec![4, 5, 6, 7, 0, 1, 2, 3]);
}

#[test]
fn gate_acts_only_on_upper_halves_of_pairs() {
    let mut s = counting(2);
    s.apply(Op::Z(1), &label);
    assert_eq!(s.amps, vec![0, 1, -2, -3]);
    let mut s = counting(2);
    s.apply(Op::H(0), &label);
    assert_eq!(s.amps, vec![0, 101, 2, 103]);
}

#[test]
fn cnot_swaps_where_control_is_set() {
    let mut s = counting(3);
    s.apply(Op::Cnot { control: 0, target: 2 }, &label);
    assert_eq!(s.amps, vec![0, 5, 2, 7, 4, 1, 6, 3]);
    let mut s = counting(2);
    s.apply(Op::Cnot { control: 1, target: 0 }, &label);
    assert_eq!(s.amps, vec![0, 1, 3, 2]);
}

#[test]
fn cnot_twice_restores_the_state() {
    let mut s = counting(3);
    s.apply(Op::Cnot { control: 2, target: 0 }, &label);
    assert_ne!(s.amps, counting(3).amps);
    s.apply(Op::Cnot { control: 2, target: 0 }, &label);
    assert_eq!(s.amps, counting(3).amps);
}

#[test]
fn cnot_with_equal_qubits_changes_nothing() {
    let mut s = counting(2);
    s.apply(Op::Cnot { control: 1, target: 1 }, &label);
    assert_eq!(s.amps, vec![0, 1, 2, 3]);
}

#[test]
fn fits_follows_the_qubit_count() {
    assert!(Op::H(1).fits(2));
    assert!(!Op::H(2).fits(2));
    assert!(Op::Cnot { control: 0, target: 1 }.fits(2));
    assert!(!Op::Cnot { control: 0, target: 2 }.fits(2));
    assert!(Op::Cnot { control: 2, target: 5 }.fits(2));
    assert!(Op::Cnot { control: 1, target: 1 }.fits(2));
    assert!(!Op::Cnot { control: 200, target: 0 }.fits(2));
}

#[test]
fn probabilities_map_each_amplitude() {
    let s = counting(2);
    assert_eq!(s.probabilities(&|a: i64| a * a), vec![0, 1, 4, 9]);
}

#[test]
fn qubit_prob_one_adds_the_amplitudes_with_the_bit_set() {
    let s = counting(3);
    let plus = |x: i64, y: i64| x + y;
    assert_eq!(s.qubit_prob_one(0, 0, &|a: i64| a, &plus), 1 + 3 + 5 + 7);
    assert_eq!(s.qubit_prob_one(1, 0, &|a: i64| a, &plus), 2 + 3 + 6 + 7);
    assert_eq!(s.qubit_prob_one(2, 0, &|a: i64| a, &plus), 4 + 5 + 6 + 7);
    assert_eq!(s.qubit_prob_one(3, 0, &|a: i64| a, &plus), 0);
    let order = |x: i64, y: i64| x * 10 + y;
    assert_eq!(s.qubit_prob_one(1, 0, &|a: i64| a, &order), 2367);
}
