use num_complex::Complex64;
use qrust::{Cell, Circuit, Gate, Op, State};

const R: f64 = std::f64::consts::FRAC_1_SQRT_2;

fn c(re: f64, im: f64) -> Complex64 {
    Complex64 { re, im }
}

fn matrix(g: Gate) -> [[Complex64; 2]; 2] {
    let zero = c(0.0, 0.0);
    let one = c(1.0, 0.0);
    match g {
        Gate::H => [[c(R, 0.0), c(R, 0.0)], [c(R, 0.0), c(-R, 0.0)]],
        Gate::X => [[zero, one], [one, zero]],
        Gate::Y => [[zero, c(0.0, -1.0)], [c(0.0, 1.0), zero]],
        Gate::Z => [[one, zero], [zero, c(-1.0, 0.0)]],
        Gate::S => [[one, zero], [zero, c(0.0, 1.0)]],
        Gate::T => [[one, zero], [zero, c(R, R)]],
    }
}

fn gate(g: Gate, va: Complex64, vb: Complex64) -> (Complex64, Complex64) {
    let m = matrix(g);
    (m[0][0] * va + m[0][1] * vb, m[1][0] * va + m[1][1] * vb)
}

fn zero_state(qubits: usize) -> State<Complex64> {
    State::zero(qubits, c(0.0, 0.0), c(1.0, 0.0))
}

fn norm_sqr(a: Complex64) -> f64 {
    a.norm_sqr()
}

fn probabilities(s: &State<Complex64>) -> Vec<f64> {
    s.probabilities(&norm_sqr)
}

fn qubit_prob_one(s: &State<Complex64>, q: usize) -> f64 {
    s.qubit_prob_one(q, 0.0, &norm_sqr, &|x: f64, y: f64| x + y)
}

fn close(a: f64, b: f64) -> bool {
    (a - b).abs() < 1e-10
}

#[test]
fn hadamard_superposition() {
    let mut s = zero_state(1);
    s.apply(Op::H(0), &gate);
    assert!(close(qubit_prob_one(&s, 0), 0.5));
}

#[test]
fn bell_pair() {
    let mut c = Circuit::new(2, 2);
    c.place_single(0, 0, Cell::H);
    c.place_cnot(1, 0, 1);
    let s = c.run(self::c(0.0, 0.0), self::c(1.0, 0.0), &gate);
    let p = probabilities(&s);
    assert!(close(p[0b00], 0.5));
    assert!(close(p[0b11], 0.5));
    assert!(close(p[0b01], 0.0));
    assert!(close(p[0b10], 0.0));
}

#[test]
fn x_flips() {
    let mut s = zero_state(3);
    s.apply(Op::X(1), &gate);
    assert!(close(qubit_prob_one(&s, 1), 1.0));
    assert!(close(qubit_prob_one(&s, 0), 0.0));
}

#[test]
fn hxh_equals_z_up_to_global_phase() {
    let mut a = zero_state(1);
    a.apply(Op::X(0), &gate);
    a.apply(Op::Z(0), &gate);
    let mut b = zero_state(1);
    b.apply(Op::X(0), &gate);
    b.apply(Op::H(0), &gate);
    b.apply(Op::X(0), &gate);
    b.apply(Op::H(0), &gate);
    for (x, y) in a.amps.iter().zip(&b.amps) {
        assert!(close(x.norm_sqr(), y.norm_sqr()));
    }
}

#[test]
fn ghz_state_over_three_qubits() {
    let mut c = Circuit::new(3, 3);
    c.place_single(0, 0, Cell::H);
    assert!(c.place_cnot(1, 0, 1));
    assert!(c.place_cnot(2, 1, 2));
    let s = c.run(self::c(0.0, 0.0), self::c(1.0, 0.0), &gate);
    let p = probabilities(&s);
    assert_eq!(p.len(), 8);
    assert!(close(p[0b000], 0.5));
    assert!(close(p[0b111], 0.5));
    for i in 1..7 {
        assert!(close(p[i], 0.0));
    }
}

#[test]
fn t_squared_is_s() {
    let mut a = zero_state(1);
    a.apply(Op::H(0), &gate);
    a.apply(Op::T(0), &gate);
    a.apply(Op::T(0), &gate);
    let mut b = zero_state(1);
    b.apply(Op::H(0), &gate);
    b.apply(Op::S(0), &gate);
    for (x, y) in a.amps.iter().zip(&b.amps) {
        assert!(close(x.re, y.re));
        assert!(close(x.im, y.im));
    }
}
