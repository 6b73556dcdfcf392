//! Gates, the operations that apply them, and the cells of a circuit grid.
use vstd::prelude::*;

verus! {

/// A single-qubit gate: the 2x2 unitary that an operation applies.
#[derive(Clone, Copy, Debug, PartialEq, Eq, Structural)]
pub enum Gate {
    H,
    X,
    Y,
    Z,
    S,
    T,
}

/// One operation of a circuit, in the order in which it is applied.
#[derive(Clone, Copy, Debug, PartialEq, Eq, Structural)]
pub enum Op {
    H(usize),
    X(usize),
    Y(usize),
    Z(usize),
    S(usize),
    T(usize),
    Cnot { control: usize, target: usize },
}

/// What one cell of the circuit grid holds: a single-qubit gate, or one
/// end of a CNOT that names the qubit of its other end.
#[derive(Clone, Copy, Debug, PartialEq, Eq, Structural)]
pub enum Cell {
    H,
    X,
    Y,
    Z,
    S,
    T,
    CnotCtrl(usize),
    CnotTarg(usize),
}

impl Cell {
    /// The character that draws this cell.
    pub open spec fn spec_symbol(self) -> char {
        match self {
            Cell::H => 'H',
            Cell::X => 'X',
            Cell::Y => 'Y',
            Cell::Z => 'Z',
            Cell::S => 'S',
            Cell::T => 'T',
            Cell::CnotCtrl(_) => '●',
            Cell::CnotTarg(_) => '⊕',
        }
    }

    /// The character that draws this cell.
    pub fn symbol(self) -> (c: char)
        ensures
            c == self.spec_symbol(),
    {
        match self {
            Cell::H => 'H',
            Cell::X => 'X',
            Cell::Y => 'Y',
            Cell::Z => 'Z',
            Cell::S => 'S',
            Cell::T => 'T',
            Cell::CnotCtrl(_) => '●',
            Cell::CnotTarg(_) => '⊕',
        }
    }

    /// A cell that is not an end of a CNOT.
    pub open spec fn is_single(self) -> bool {
        !(self is CnotCtrl) && !(self is CnotTarg)
    }
}

/// The letter a single-qubit gate is written with.
pub open spec fn gate_letter(g: Gate) -> char {
    match g {
        Gate::H => 'H',
        Gate::X => 'X',
        Gate::Y => 'Y',
        Gate::Z => 'Z',
        Gate::S => 'S',
        Gate::T => 'T',
    }
}

impl Op {
    /// The single-qubit gate of the operation and the qubit it acts on, or
    /// `None` for a CNOT.
    pub open spec fn single(self) -> Option<(Gate, usize)> {
        match self {
            Op::H(q) => Some((Gate::H, q)),
            Op::X(q) => Some((Gate::X, q)),
            Op::Y(q) => Some((Gate::Y, q)),
            Op::Z(q) => Some((Gate::Z, q)),
            Op::S(q) => Some((Gate::S, q)),
            Op::T(q) => Some((Gate::T, q)),
            Op::Cnot { .. } => None,
        }
    }

    /// Every qubit the operation names is one of `n` qubits, and a CNOT's
    /// control and target differ.
    pub open spec fn in_range(self, n: nat) -> bool {
        match self {
            Op::Cnot { control, target } => control < n && target < n && control != target,
            _ => self.single().unwrap().1 < n,
        }
    }
}

/// Cells are told apart by their symbols: two cells drawn alike are the same
/// single-qubit gate or the same end of a CNOT, and a single-qubit gate is
/// drawn with the letter of its gate.
pub proof fn lemma_symbols_distinct(c1: Cell, c2: Cell)
    ensures
        c1.spec_symbol() == c2.spec_symbol() ==> (c1.is_single() && c1 == c2) || (
        c1 is CnotCtrl && c2 is CnotCtrl) || (c1 is CnotTarg && c2 is CnotTarg),
        c1.is_single() ==> c1.spec_symbol() == 'H' || c1.spec_symbol() == 'X' || c1.spec_symbol()
            == 'Y' || c1.spec_symbol() == 'Z' || c1.spec_symbol() == 'S' || c1.spec_symbol() == 'T',
{
}

/// The qubit that the other end of a CNOT cell sits on, if the cell is one.
pub open spec fn partner(cell: Option<Cell>) -> Option<usize> {
    match cell {
        Some(Cell::CnotCtrl(t)) => Some(t),
        Some(Cell::CnotTarg(c)) => Some(c),
        _ => None,
    }
}

} // verus!
