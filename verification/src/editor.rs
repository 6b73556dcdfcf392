//! The circuit editor: a cursor over the grid, a pending CNOT, and what
//! each key does to them.
use vstd::prelude::*;

verus! {

use crate::circuit::{
    Circuit, cleared, column_wf, with_cnot, lemma_cleared_frame, lemma_cleared_wf, lemma_with_cnot_wf,
};
use crate::gate::{Cell, partner};

/// A key that the editor reacts to.
#[derive(Clone, Copy, Debug, PartialEq, Eq, Structural)]
pub enum Key {
    Esc,
    Char(char),
    Left,
    Right,
    Up,
    Down,
    Enter,
    Backspace,
    Delete,
    Other,
}

/// The message line under the help text.
#[derive(Clone, Copy, Debug, PartialEq, Eq, Structural)]
pub enum Notice {
    Empty,
    CnotPrompt,
    CnotWrongColumn,
    CnotSameQubit,
}

/// What the caller is asked to do after a key.
#[derive(Clone, Copy, Debug, PartialEq, Eq, Structural)]
pub enum Action {
    Nothing,
    Run,
}

/// How a cell of the grid is highlighted.
#[derive(Clone, Copy, Debug, PartialEq, Eq, Structural)]
pub enum Look {
    Cursor,
    Pending,
    Occupied,
    Plain,
}

/// The text of a notice.
pub open spec fn notice_text(n: Notice) -> Seq<char> {
    match n {
        Notice::Empty => ""@,
        Notice::CnotPrompt => "cnot: move to target qubit (same column), Enter to confirm"@,
        Notice::CnotWrongColumn => "cnot cancelled: target must be in the same column"@,
        Notice::CnotSameQubit => "cnot cancelled: pick a different qubit"@,
    }
}

impl Notice {
    /// The text of the notice.
    pub fn text(self) -> (s: &'static str)
        ensures
            s@ == notice_text(self),
    {
        match self {
            Notice::Empty => "",
            Notice::CnotPrompt => "cnot: move to target qubit (same column), Enter to confirm",
            Notice::CnotWrongColumn => "cnot cancelled: target must be in the same column",
            Notice::CnotSameQubit => "cnot cancelled: pick a different qubit",
        }
    }
}

/// The cell that a letter key places, if it is one of `h x y z s t`.
pub open spec fn key_cell(c: char) -> Option<Cell> {
    if c == 'h' {
        Some(Cell::H)
    } else if c == 'x' {
        Some(Cell::X)
    } else if c == 'y' {
        Some(Cell::Y)
    } else if c == 'z' {
        Some(Cell::Z)
    } else if c == 's' {
        Some(Cell::S)
    } else if c == 't' {
        Some(Cell::T)
    } else {
        None
    }
}

/// The character that draws a cell of the grid: a wire for an empty cell.
pub open spec fn glyph_of(cell: Option<Cell>) -> char {
    match cell {
        None => '─',
        Some(c) => c.spec_symbol(),
    }
}

/// The character that draws a cell of the grid: a wire for an empty cell.
pub fn glyph(cell: Option<Cell>) -> (c: char)
    ensures
        c == glyph_of(cell),
{
    match cell {
        None => '─',
        Some(c) => c.symbol(),
    }
}

/// The help line: how to finish a pending CNOT, or the keys in general.
pub open spec fn hint_text(pending: bool) -> Seq<char> {
    if pending {
        "cnot: move to target qubit, Enter confirms  ·  Esc cancels"@
    } else {
        "arrows move  ·  h x y z s t place  ·  c cnot  ·  ⌫ clear  ·  r run  ·  q quit"@
    }
}

/// An editor over a circuit.
pub struct Editor {
    pub circuit: Circuit,
    pub cursor_col: usize,
    pub cursor_q: usize,
    pub pending_cnot: Option<(usize, usize)>,
    pub notice: Notice,
    pub exit: bool,
}

/// `e` holds the given grid, qubit count, cursor, pending CNOT, notice and
/// exit flag.
pub open spec fn editor_is(
    e: Editor,
    grid: Seq<Seq<Option<Cell>>>,
    qubits: usize,
    cursor_col: usize,
    cursor_q: usize,
    pending_cnot: Option<(usize, usize)>,
    notice: Notice,
    exit: bool,
) -> bool {
    &&& e.circuit.grid() == grid
    &&& e.circuit.qubits == qubits
    &&& e.cursor_col == cursor_col
    &&& e.cursor_q == cursor_q
    &&& e.pending_cnot == pending_cnot
    &&& e.notice == notice
    &&& e.exit == exit
}

/// What `key` makes of the editor `b`: `a` is the editor afterwards.
pub open spec fn step(b: Editor, key: Key, a: Editor) -> bool {
    let g = b.circuit.grid();
    let n = b.circuit.qubits;
    let col = b.cursor_col;
    let q = b.cursor_q;
    let p = b.pending_cnot;
    let x = b.exit;
    match key {
        Key::Esc => if p is Some {
            editor_is(a, g, n, col, q, None, Notice::Empty, x)
        } else {
            editor_is(a, g, n, col, q, p, Notice::Empty, true)
        },
        Key::Left => editor_is(
            a,
            g,
            n,
            if col > 0 {
                (col - 1) as usize
            } else {
                0
            },
            q,
            p,
            Notice::Empty,
            x,
        ),
        Key::Right => editor_is(
            a,
            g,
            n,
            if col + 1 < g.len() {
                (col + 1) as usize
            } else {
                (g.len() - 1) as usize
            },
            q,
            p,
            Notice::Empty,
            x,
        ),
        Key::Up => editor_is(
            a,
            g,
            n,
            col,
            if q + 1 < n {
                (q + 1) as usize
            } else {
                (n - 1) as usize
            },
            p,
            Notice::Empty,
            x,
        ),
        Key::Down => editor_is(
            a,
            g,
            n,
            col,
            if q > 0 {
                (q - 1) as usize
            } else {
                0
            },
            p,
            Notice::Empty,
            x,
        ),
        Key::Backspace | Key::Delete => editor_is(
            a,
            g.update(col as int, cleared(g[col as int], q)),
            n,
            col,
            q,
            None,
            Notice::Empty,
            x,
        ),
        Key::Enter => match p {
            None => editor_is(a, g, n, col, q, None, Notice::Empty, x),
            Some((pc, ctrl)) => if pc != col {
                editor_is(a, g, n, col, q, None, Notice::CnotWrongColumn, x)
            } else if ctrl != q && ctrl < n {
                editor_is(
                    a,
                    g.update(col as int, with_cnot(g[col as int], ctrl, q)),
                    n,
                    col,
                    q,
                    None,
                    Notice::Empty,
                    x,
                )
            } else {
                editor_is(a, g, n, col, q, None, Notice::CnotSameQubit, x)
            },
        },
        Key::Char(c) => if c == 'q' && p is None {
            editor_is(a, g, n, col, q, p, Notice::Empty, true)
        } else if key_cell(c) is Some {
            editor_is(
                a,
                g.update(col as int, cleared(g[col as int], q).update(q as int, key_cell(c))),
                n,
                col,
                q,
                None,
                Notice::Empty,
                x,
            )
        } else if c == 'c' {
            editor_is(a, g, n, col, q, Some((col, q)), Notice::CnotPrompt, x)
        } else {
            editor_is(a, g, n, col, q, p, Notice::Empty, x)
        },
        Key::Other => editor_is(a, g, n, col, q, p, Notice::Empty, x),
    }
}

impl Editor {
    /// The circuit is well formed, has at least one column and one qubit,
    /// and the cursor is on one of its cells.
    pub open spec fn wf(&self) -> bool {
        &&& self.circuit.wf()
        &&& self.circuit.grid().len() > 0
        &&& self.circuit.qubits > 0
        &&& self.cursor_col < self.circuit.grid().len()
        &&& self.cursor_q < self.circuit.qubits
    }

    /// An editor over an empty circuit of `cols` columns on `qubits` qubits,
    /// with the cursor on qubit 0 of the first column.
    pub fn new(qubits: usize, cols: usize) -> (e: Self)
        requires
            qubits > 0,
            cols > 0,
        ensures
            e.wf(),
            e.circuit.qubits == qubits,
            e.circuit.grid().len() == cols,
            forall|i: int, q: int|
                0 <= i < cols && 0 <= q < qubits ==> #[trigger] e.circuit.grid()[i][q] == None::<
                    Cell,
                >,
            e.cursor_col == 0,
            e.cursor_q == 0,
            e.pending_cnot == None::<(usize, usize)>,
            e.notice == Notice::Empty,
            !e.exit,
    {
        Editor {
            circuit: Circuit::new(qubits, cols),
            cursor_col: 0,
            cursor_q: 0,
            pending_cnot: None,
            notice: Notice::Empty,
            exit: false,
        }
    }
}

/// Enter with a pending CNOT whose control is in the cursor's column, on a
/// qubit other than the cursor's, places the CNOT from that control to the
/// cursor's qubit, whichever of the two is higher; the rest of the column
/// changes only where the two cells' earlier CNOTs had their other ends, and
/// no other column changes.
pub proof fn lemma_enter_places_cnot(b: Editor, a: Editor, ctrl: usize)
    requires
        b.wf(),
        step(b, Key::Enter, a),
        b.pending_cnot == Some((b.cursor_col, ctrl)),
        ctrl != b.cursor_q,
        ctrl < b.circuit.qubits,
    ensures
        a.circuit.grid()[b.cursor_col as int][ctrl as int] == Some(Cell::CnotCtrl(b.cursor_q)),
        a.circuit.grid()[b.cursor_col as int][b.cursor_q as int] == Some(Cell::CnotTarg(ctrl)),
        a.circuit.grid().len() == b.circuit.grid().len(),
        forall|c: int|
            0 <= c < b.circuit.grid().len() && c != b.cursor_col ==> #[trigger] a.circuit.grid()[c]
                == b.circuit.grid()[c],
        forall|r: int|
            0 <= r < b.circuit.qubits && r != ctrl && r != b.cursor_q && partner(
                b.circuit.grid()[b.cursor_col as int][ctrl as int],
            ) != Some(r as usize) && partner(b.circuit.grid()[b.cursor_col as int][b.cursor_q as int])
                != Some(r as usize) ==> #[trigger] a.circuit.grid()[b.cursor_col as int][r]
                == b.circuit.grid()[b.cursor_col as int][r],
        a.pending_cnot == None::<(usize, usize)>,
        a.notice == Notice::Empty,
        a.circuit.wf(),
{
    let g = b.circuit.grid();
    let col = g[b.cursor_col as int];
    assert(col == b.circuit.cols@[b.cursor_col as int]@);
    lemma_with_cnot_wf(col, ctrl, b.cursor_q);
    let c1 = cleared(col, ctrl);
    lemma_cleared_frame(col, ctrl);
    lemma_cleared_frame(c1, b.cursor_q);
    assert forall|r: int|
        0 <= r < b.circuit.qubits && r != ctrl && r != b.cursor_q && partner(col[ctrl as int]) != Some(
            r as usize,
        ) && partner(col[b.cursor_q as int]) != Some(r as usize) implies #[trigger] a.circuit.grid()[b.cursor_col as int][r]
        == col[r] by {
        assert(c1[r] == col[r]);
        if partner(c1[b.cursor_q as int]) == Some(r as usize) {
            assert(c1[b.cursor_q as int] == col[b.cursor_q as int]);
        }
        assert(cleared(c1, b.cursor_q)[r] == c1[r]);
    }
    assert forall|c: int| 0 <= c < g.len() implies #[trigger] a.circuit.grid()[c].len()
        == a.circuit.qubits && column_wf(a.circuit.grid()[c]) by {
        assert(g[c].len() == b.circuit.qubits && column_wf(g[c]));
    }
}

/// Enter with a pending CNOT whose control is in another column than the
/// cursor cancels it with a notice and leaves the circuit as it was; so does
/// Enter with the cursor on the control's own qubit.
pub proof fn lemma_enter_refuses(b: Editor, a: Editor, pc: usize, ctrl: usize)
    requires
        b.wf(),
        step(b, Key::Enter, a),
        b.pending_cnot == Some((pc, ctrl)),
        pc != b.cursor_col || ctrl == b.cursor_q,
    ensures
        a.circuit.grid() == b.circuit.grid(),
        a.pending_cnot == None::<(usize, usize)>,
        a.notice == (if pc != b.cursor_col {
            Notice::CnotWrongColumn
        } else {
            Notice::CnotSameQubit
        }),
{
}

/// A letter key among `h x y z s t` puts under the cursor the single-qubit
/// gate written with that letter in upper case, and drops a pending CNOT.
pub proof fn lemma_letter_places_gate(b: Editor, a: Editor, c: char)
    requires
        b.wf(),
        step(b, Key::Char(c), a),
        c == 'h' || c == 'x' || c == 'y' || c == 'z' || c == 's' || c == 't',
    ensures
        a.circuit.grid()[b.cursor_col as int][b.cursor_q as int] matches Some(cell) && cell.is_single()
            && cell.spec_symbol() as int + 32 == c as int,
        a.pending_cnot == None::<(usize, usize)>,
        a.cursor_col == b.cursor_col,
        a.cursor_q == b.cursor_q,
{
    let g = b.circuit.grid();
    assert(g[b.cursor_col as int] == b.circuit.cols@[b.cursor_col as int]@);
    lemma_cleared_wf(g[b.cursor_col as int], b.cursor_q);
}

/// Backspace and Delete empty the cell under the cursor, with the other end
/// of its CNOT if it has one, touch nothing else, and drop a pending CNOT.
pub proof fn lemma_delete_clears(b: Editor, a: Editor, key: Key)
    requires
        b.wf(),
        step(b, key, a),
        key == Key::Backspace || key == Key::Delete,
    ensures
        a.circuit.grid()[b.cursor_col as int][b.cursor_q as int] is None,
        forall|c: int|
            0 <= c < b.circuit.grid().len() && c != b.cursor_col ==> #[trigger] a.circuit.grid()[c]
                == b.circuit.grid()[c],
        forall|r: int|
            0 <= r < b.circuit.qubits && r != b.cursor_q && partner(
                b.circuit.grid()[b.cursor_col as int][b.cursor_q as int],
            ) != Some(r as usize) ==> #[trigger] a.circuit.grid()[b.cursor_col as int][r]
                == b.circuit.grid()[b.cursor_col as int][r],
        a.pending_cnot == None::<(usize, usize)>,
        a.cursor_col == b.cursor_col && a.cursor_q == b.cursor_q,
{
    let g = b.circuit.grid();
    assert(g[b.cursor_col as int] == b.circuit.cols@[b.cursor_col as int]@);
    lemma_cleared_wf(g[b.cursor_col as int], b.cursor_q);
    lemma_cleared_frame(g[b.cursor_col as int], b.cursor_q);
}

/// `c` marks the cell under the cursor as the control of a CNOT to come,
/// prompts for the target, and leaves the circuit as it was.
pub proof fn lemma_c_marks_control(b: Editor, a: Editor)
    requires
        b.wf(),
        step(b, Key::Char('c'), a),
    ensures
        a.pending_cnot == Some((b.cursor_col, b.cursor_q)),
        a.notice == Notice::CnotPrompt,
        a.circuit.grid() == b.circuit.grid(),
{
}

/// A step left followed by a step right comes back to the same column,
/// unless the cursor started in the first column; likewise down then up on
/// the qubits, unless it started on qubit 0.
pub proof fn lemma_arrows_undo(b: Editor, m: Editor, a: Editor, horizontal: bool)
    requires
        b.wf(),
        m.wf(),
        horizontal ==> step(b, Key::Left, m) && step(m, Key::Right, a),
        !horizontal ==> step(b, Key::Down, m) && step(m, Key::Up, a),
    ensures
        horizontal && b.cursor_col > 0 ==> a.cursor_col == b.cursor_col && a.cursor_q == b.cursor_q,
        !horizontal && b.cursor_q > 0 ==> a.cursor_col == b.cursor_col && a.cursor_q == b.cursor_q,
        horizontal ==> m.cursor_col <= b.cursor_col && a.cursor_col >= m.cursor_col,
        !horizontal ==> m.cursor_q <= b.cursor_q && a.cursor_q >= m.cursor_q,
        a.circuit.grid() == b.circuit.grid(),
{
}

/// The editor only ever comes to exit on Esc or `q`, and only when no CNOT
/// is pending; and Esc with a pending CNOT cancels it without exiting.
pub proof fn lemma_exit(b: Editor, key: Key, a: Editor)
    requires
        b.wf(),
        step(b, key, a),
        !b.exit,
    ensures
        a.exit ==> b.pending_cnot is None && (key == Key::Esc || key == Key::Char('q')),
        key == Key::Esc && b.pending_cnot is Some ==> !a.exit && a.pending_cnot is None,
        a.circuit.qubits == b.circuit.qubits,
{
}

impl Editor {
    /// How the cell of column `col` on qubit `q` is highlighted: the cursor
    /// first, then the control of a pending CNOT, then any occupied cell.
    pub open spec fn look_of(&self, col: usize, q: usize) -> Look {
        if col == self.cursor_col && q == self.cursor_q {
            Look::Cursor
        } else if self.pending_cnot == Some((col, q)) {
            Look::Pending
        } else if self.circuit.grid()[col as int][q as int] is Some {
            Look::Occupied
        } else {
            Look::Plain
        }
    }

    /// How the cell of column `col` on qubit `q` is highlighted.
    pub fn look(&self, col: usize, q: usize) -> (l: Look)
        requires
            col < self.circuit.grid().len(),
            q < self.circuit.grid()[col as int].len(),
        ensures
            l == self.look_of(col, q),
    {
        if col == self.cursor_col && q == self.cursor_q {
            return Look::Cursor;
        }
        let pending = match self.pending_cnot {
            Some((pc, pq)) => pc == col && pq == q,
            None => false,
        };
        if pending {
            Look::Pending
        } else if self.circuit.cols[col][q].is_some() {
            Look::Occupied
        } else {
            Look::Plain
        }
    }

    /// The help line for the editor's current mode.
    pub fn hint(&self) -> (s: &'static str)
        ensures
            s@ == hint_text(self.pending_cnot is Some),
    {
        if self.pending_cnot.is_some() {
            "cnot: move to target qubit, Enter confirms  ·  Esc cancels"
        } else {
            "arrows move  ·  h x y z s t place  ·  c cnot  ·  ⌫ clear  ·  r run  ·  q quit"
        }
    }

    /// Places a single-qubit gate under the cursor and drops a pending CNOT.
    fn place(&mut self, cell: Cell)
        requires
            old(self).wf(),
            cell.is_single(),
        ensures
            final(self).wf(),
            editor_is(
                *final(self),
                old(self).circuit.grid().update(
                    old(self).cursor_col as int,
                    cleared(old(self).circuit.grid()[old(self).cursor_col as int], old(self).cursor_q).update(
                        old(self).cursor_q as int,
                        Some(cell),
                    ),
                ),
                old(self).circuit.qubits,
                old(self).cursor_col,
                old(self).cursor_q,
                None,
                old(self).notice,
                old(self).exit,
            ),
    {
        proof {
            let g = self.circuit.grid();
            assert(g[self.cursor_col as int] == self.circuit.cols@[self.cursor_col as int]@);
            lemma_cleared_wf(g[self.cursor_col as int], self.cursor_q);
        }
        self.circuit.place_single(self.cursor_col, self.cursor_q, cell);
        self.pending_cnot = None;
    }

    /// Marks the cell under the cursor as the control of a CNOT to be placed.
    fn start_cnot(&mut self)
        requires
            old(self).wf(),
        ensures
            final(self).wf(),
            editor_is(
                *final(self),
                old(self).circuit.grid(),
                old(self).circuit.qubits,
                old(self).cursor_col,
                old(self).cursor_q,
                Some((old(self).cursor_col, old(self).cursor_q)),
                Notice::CnotPrompt,
                old(self).exit,
            ),
    {
        self.pending_cnot = Some((self.cursor_col, self.cursor_q));
        self.notice = Notice::CnotPrompt;
    }

    /// Places the pending CNOT with its target under the cursor; it is
    /// cancelled, with a notice, when the cursor left the control's column
    /// or the two qubits cannot carry a CNOT.
    fn confirm_cnot(&mut self)
        requires
            old(self).wf(),
            old(self).notice == Notice::Empty,
        ensures
            final(self).wf(),
            step(*old(self), Key::Enter, *final(self)),
    {
        let ghost g = self.circuit.grid();
        let pending = self.pending_cnot;
        self.pending_cnot = None;
        match pending {
            None => {},
            Some((col, ctrl)) => {
                if col != self.cursor_col {
                    self.notice = Notice::CnotWrongColumn;
                    return;
                }
                proof {
                    assert(g[col as int] == self.circuit.cols@[col as int]@);
                    if ctrl != self.cursor_q && ctrl < self.circuit.qubits {
                        lemma_with_cnot_wf(g[col as int], ctrl, self.cursor_q);
                    }
                }
                if !self.circuit.place_cnot(col, ctrl, self.cursor_q) {
                    self.notice = Notice::CnotSameQubit;
                }
            },
        }
    }

    /// Reacts to a key: moves the cursor, edits the circuit, starts or
    /// finishes a CNOT, or asks to quit; asks the caller to run the circuit
    /// on `r`. The notice of the previous key is cleared first.
    pub fn on_key(&mut self, key: Key) -> (action: Action)
        requires
            old(self).wf(),
        ensures
            final(self).wf(),
            step(*old(self), key, *final(self)),
            action == (if key == Key::Char('r') {
                Action::Run
            } else {
                Action::Nothing
            }),
    {
        self.notice = Notice::Empty;
        let mut action = Action::Nothing;
        match key {
            Key::Esc => {
                if self.pending_cnot.is_some() {
                    self.pending_cnot = None;
                } else {
                    self.exit = true;
                }
            },
            Key::Char('q') if self.pending_cnot.is_none() => self.exit = true,
            Key::Left => {
                if self.cursor_col > 0 {
                    self.cursor_col = self.cursor_col - 1;
                }
            },
            Key::Right => {
                let last = self.circuit.cols.len() - 1;
                self.cursor_col = if self.cursor_col + 1 < last + 1 {
                    self.cursor_col + 1
                } else {
                    last
                };
            },
            Key::Up => {
                let last = self.circuit.qubits - 1;
                self.cursor_q = if self.cursor_q + 1 < last + 1 {
                    self.cursor_q + 1
                } else {
                    last
                };
            },
            Key::Down => {
                if self.cursor_q > 0 {
                    self.cursor_q = self.cursor_q - 1;
                }
            },
            Key::Char('h') => self.place(Cell::H),
            Key::Char('x') => self.place(Cell::X),
            Key::Char('y') => self.place(Cell::Y),
            Key::Char('z') => self.place(Cell::Z),
            Key::Char('s') => self.place(Cell::S),
            Key::Char('t') => self.place(Cell::T),
            Key::Char('c') => self.start_cnot(),
            Key::Enter => self.confirm_cnot(),
            Key::Backspace | Key::Delete => {
                proof {
                    let g = self.circuit.grid();
                    assert(g[self.cursor_col as int] == self.circuit.cols@[self.cursor_col as int]@);
                    lemma_cleared_wf(g[self.cursor_col as int], self.cursor_q);
                }
                self.circuit.clear(self.cursor_col, self.cursor_q);
                self.pending_cnot = None;
            },
            Key::Char('r') => action = Action::Run,
            _ => {},
        }
        action
    }
}

/// A cell is highlighted as the cursor exactly where the cursor is, as the
/// pending control exactly at the pending control's own cell (unless the
/// cursor is there), as occupied only when it holds something, and plain
/// only when it is empty.
pub proof fn lemma_look(e: Editor, col: usize, q: usize)
    ensures
        (e.look_of(col, q) == Look::Cursor) == (col == e.cursor_col && q == e.cursor_q),
        e.look_of(col, q) == Look::Pending ==> e.pending_cnot == Some((col, q)),
        e.pending_cnot == Some((col, q)) && !(col == e.cursor_col && q == e.cursor_q) ==> e.look_of(
            col,
            q,
        ) == Look::Pending,
        e.look_of(col, q) == Look::Occupied ==> e.circuit.grid()[col as int][q as int] is Some,
        e.look_of(col, q) == Look::Plain ==> e.circuit.grid()[col as int][q as int] is None,
{
}

} // verus!
