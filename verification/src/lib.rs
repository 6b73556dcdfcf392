//! A quantum circuit simulator: a grid editor for circuits of single-qubit
//! gates and CNOTs, the list of operations a circuit stands for, and the
//! application of those operations to a state vector whose amplitude
//! arithmetic the caller supplies.
use vstd::prelude::*;

pub mod bits;
pub mod gate;
pub mod state;
pub mod circuit;
pub mod text;
pub mod editor;

pub use circuit::Circuit;
pub use editor::{Action, Editor, Key, Look, Notice, glyph};
pub use gate::{Cell, Gate, Op};
pub use state::State;
pub use text::{bar, format_bits};

verus! {

} // verus!
