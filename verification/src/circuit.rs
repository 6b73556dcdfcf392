//! The circuit grid: columns of cells, one cell per qubit, where a CNOT
//! occupies two cells of a column that name each other.
use vstd::prelude::*;

verus! {

use vstd::arithmetic::power2::pow2;
use crate::gate::{Cell, Gate, Op, gate_letter, partner};
use crate::state::{State, fits, lemma_fits_qubits, lemma_runs_step, runs, zero_amps};

/// Column `col` is paired at index `q`: a CNOT cell there names another
/// index of the column, in range, which holds the matching other end.
pub open spec fn paired(col: Seq<Option<Cell>>, q: int) -> bool {
    match col[q] {
        Some(Cell::CnotCtrl(t)) => t < col.len() && t != q && col[t as int] == Some(
            Cell::CnotTarg(q as usize),
        ),
        Some(Cell::CnotTarg(c)) => c < col.len() && c != q && col[c as int] == Some(
            Cell::CnotCtrl(q as usize),
        ),
        _ => true,
    }
}

/// Every CNOT cell of the column is paired with its other end.
pub open spec fn column_wf(col: Seq<Option<Cell>>) -> bool {
    forall|q: int| 0 <= q < col.len() ==> #[trigger] paired(col, q)
}

/// Cell `q` of the column can be cleared: it is in range, and so is the
/// other end it names, if it is a CNOT cell.
pub open spec fn clear_ok(col: Seq<Option<Cell>>, q: usize) -> bool {
    &&& q < col.len()
    &&& (partner(col[q as int]) matches Some(p) ==> p < col.len())
}

/// The column with cell `q` emptied, and with it the other end of the CNOT
/// that cell `q` is part of, if it is.
pub open spec fn cleared(col: Seq<Option<Cell>>, q: usize) -> Seq<Option<Cell>> {
    let emptied = col.update(q as int, None);
    match partner(col[q as int]) {
        Some(p) => emptied.update(p as int, None),
        None => emptied,
    }
}

/// The column with a CNOT from `control` to `target`, after both cells were
/// cleared.
pub open spec fn with_cnot(col: Seq<Option<Cell>>, control: usize, target: usize) -> Seq<
    Option<Cell>,
> {
    cleared(cleared(col, control), target).update(control as int, Some(Cell::CnotCtrl(target))).update(
        target as int,
        Some(Cell::CnotTarg(control)),
    )
}

/// The operations that the cell at qubit `q` contributes: none for an empty
/// cell or the target end of a CNOT, one otherwise.
pub open spec fn cell_ops(cell: Option<Cell>, q: usize) -> Seq<Op> {
    match cell {
        Some(Cell::H) => seq![Op::H(q)],
        Some(Cell::X) => seq![Op::X(q)],
        Some(Cell::Y) => seq![Op::Y(q)],
        Some(Cell::Z) => seq![Op::Z(q)],
        Some(Cell::S) => seq![Op::S(q)],
        Some(Cell::T) => seq![Op::T(q)],
        Some(Cell::CnotCtrl(t)) => seq![Op::Cnot { control: q, target: t }],
        _ => seq![],
    }
}

/// The operations of a column, qubit by qubit from qubit 0 up.
pub open spec fn column_ops(col: Seq<Option<Cell>>) -> Seq<Op>
    decreases col.len(),
{
    if col.len() == 0 {
        seq![]
    } else {
        column_ops(col.drop_last()) + cell_ops(col.last(), (col.len() - 1) as usize)
    }
}

/// The operations of a grid, column by column from the left.
pub open spec fn grid_ops(grid: Seq<Seq<Option<Cell>>>) -> Seq<Op>
    decreases grid.len(),
{
    if grid.len() == 0 {
        seq![]
    } else {
        grid_ops(grid.drop_last()) + column_ops(grid.last())
    }
}

/// A circuit on `qubits` qubits: `cols[c][q]` is the cell of column `c` on
/// qubit `q`.
#[derive(Clone, Debug)]
pub struct Circuit {
    pub qubits: usize,
    pub cols: Vec<Vec<Option<Cell>>>,
}

/// Clearing a cell of a column whose CNOT cells are paired leaves them paired.
pub proof fn lemma_cleared_wf(col: Seq<Option<Cell>>, q: usize)
    requires
        column_wf(col),
        q < col.len(),
        col.len() <= usize::MAX,
    ensures
        clear_ok(col, q),
        column_wf(cleared(col, q)),
        cleared(col, q).len() == col.len(),
        cleared(col, q)[q as int] == None::<Cell>,
{
    assert(paired(col, q as int));
    let new = cleared(col, q);
    assert forall|r: int| 0 <= r < new.len() implies #[trigger] paired(new, r) by {
        assert(paired(col, r));
        if new[r] is Some {
            assert(r != q);
            assert(new[r] == col[r]);
            if let Some(p) = partner(col[q as int]) {
                assert(r != p);
                assert(col[p as int] == Some(Cell::CnotTarg(q)) || col[p as int] == Some(
                    Cell::CnotCtrl(q),
                ));
            }
            match col[r] {
                Some(Cell::CnotCtrl(t)) => {
                    assert(t != q);
                    assert(col[t as int] == Some(Cell::CnotTarg(r as usize)));
                    assert(new[t as int] == col[t as int]);
                }
                Some(Cell::CnotTarg(c)) => {
                    assert(c != q);
                    assert(col[c as int] == Some(Cell::CnotCtrl(r as usize)));
                    assert(new[c as int] == col[c as int]);
                }
                _ => {}
            }
        }
    }
}

/// Clearing cell `q` empties it and the other end of its CNOT, if any, and
/// changes no other cell.
pub proof fn lemma_cleared_frame(col: Seq<Option<Cell>>, q: usize)
    requires
        clear_ok(col, q),
    ensures
        cleared(col, q).len() == col.len(),
        cleared(col, q)[q as int] == None::<Cell>,
        partner(col[q as int]) matches Some(p) ==> cleared(col, q)[p as int] == None::<Cell>,
        forall|r: int|
            0 <= r < col.len() && r != q && partner(col[q as int]) != Some(r as usize) ==> #[trigger] cleared(
                col,
                q,
            )[r] == col[r],
{
}

/// A cell holding a single-qubit gate contributes exactly one operation: that
/// gate, written with the cell's own letter, on the cell's own qubit.
pub proof fn lemma_single_cell_op(c: Cell, q: usize)
    requires
        c.is_single(),
    ensures
        cell_ops(Some(c), q).len() == 1,
        cell_ops(Some(c), q)[0].single() matches Some((g, k)) && k == q && gate_letter(g)
            == c.spec_symbol(),
{
}

/// The control end of a CNOT contributes exactly one CNOT, from the cell's
/// qubit to the qubit its other end is on; the target end and an empty cell
/// contribute nothing.
pub proof fn lemma_cnot_cell_op(cell: Option<Cell>, q: usize)
    ensures
        cell matches Some(Cell::CnotCtrl(t)) ==> cell_ops(cell, q).len() == 1 && (cell_ops(
            cell,
            q,
        )[0] matches Op::Cnot { control, target } && control == q && partner(cell) == Some(
            target,
        )),
        (cell is None || cell matches Some(Cell::CnotTarg(_))) ==> cell_ops(cell, q).len() == 0,
{
}

/// A cell that contributes an operation: any gate but the target end of a CNOT.
pub open spec fn produces(cell: Option<Cell>) -> bool {
    cell is Some && !(cell matches Some(Cell::CnotTarg(_)))
}

/// Where the operation of cell `q` of column `c` stands in the grid's list:
/// after those of every earlier column and of the lower qubits of its column.
pub open spec fn op_position(grid: Seq<Seq<Option<Cell>>>, c: int, q: int) -> int {
    (grid_ops(grid.take(c)).len() + column_ops(grid[c].take(q)).len()) as int
}

proof fn lemma_cell_ops_len(cell: Option<Cell>, q: usize)
    ensures
        cell_ops(cell, q).len() == (if produces(cell) {
            1nat
        } else {
            0nat
        }),
{
}

proof fn lemma_column_prefix(col: Seq<Option<Cell>>, k: int, m: int)
    requires
        0 <= k <= m <= col.len(),
    ensures
        column_ops(col.take(k)).len() <= column_ops(col.take(m)).len(),
        forall|i: int|
            0 <= i < column_ops(col.take(k)).len() ==> #[trigger] column_ops(col.take(m))[i]
                == column_ops(col.take(k))[i],
    decreases m - k,
{
    if k < m {
        lemma_column_prefix(col, k, m - 1);
        let pre = col.take(m);
        assert(pre.drop_last() =~= col.take(m - 1));
        assert(column_ops(pre) == column_ops(col.take(m - 1)) + cell_ops(pre.last(), (m - 1) as usize));
    }
}

proof fn lemma_grid_prefix(g: Seq<Seq<Option<Cell>>>, k: int, m: int)
    requires
        0 <= k <= m <= g.len(),
    ensures
        grid_ops(g.take(k)).len() <= grid_ops(g.take(m)).len(),
        forall|i: int|
            0 <= i < grid_ops(g.take(k)).len() ==> #[trigger] grid_ops(g.take(m))[i] == grid_ops(
                g.take(k),
            )[i],
    decreases m - k,
{
    if k < m {
        lemma_grid_prefix(g, k, m - 1);
        let pre = g.take(m);
        assert(pre.drop_last() =~= g.take(m - 1));
        assert(grid_ops(pre) == grid_ops(g.take(m - 1)) + column_ops(pre.last()));
    }
}

/// Each cell that contributes an operation has it at its `op_position` in
/// the grid's list of operations.
pub proof fn lemma_op_at_position(g: Seq<Seq<Option<Cell>>>, c: int, q: int)
    requires
        0 <= c < g.len(),
        0 <= q < g[c].len(),
        produces(g[c][q]),
    ensures
        0 <= op_position(g, c, q) < grid_ops(g).len(),
        grid_ops(g)[op_position(g, c, q)] == cell_ops(g[c][q], q as usize)[0],
{
    let col = g[c];
    lemma_cell_ops_len(col[q], q as usize);
    let cq = col.take(q + 1);
    assert(cq.drop_last() =~= col.take(q));
    assert(cq.last() == col[q]);
    assert(column_ops(cq) == column_ops(col.take(q)) + cell_ops(col[q], q as usize));
    lemma_column_prefix(col, q + 1, col.len() as int);
    assert(col.take(col.len() as int) =~= col);
    let gc = g.take(c + 1);
    assert(gc.drop_last() =~= g.take(c));
    assert(gc.last() == col);
    assert(grid_ops(gc) == grid_ops(g.take(c)) + column_ops(col));
    lemma_grid_prefix(g, c + 1, g.len() as int);
    assert(g.take(g.len() as int) =~= g);
}

/// Operations stand in the order of their cells: by column, then by qubit.
pub proof fn lemma_op_positions_ordered(g: Seq<Seq<Option<Cell>>>, c1: int, q1: int, c2: int, q2: int)
    requires
        0 <= c1 < g.len(),
        0 <= q1 < g[c1].len(),
        0 <= c2 < g.len(),
        0 <= q2 < g[c2].len(),
        produces(g[c1][q1]),
        c1 < c2 || (c1 == c2 && q1 < q2),
    ensures
        op_position(g, c1, q1) < op_position(g, c2, q2),
{
    let col = g[c1];
    lemma_cell_ops_len(col[q1], q1 as usize);
    let cq = col.take(q1 + 1);
    assert(cq.drop_last() =~= col.take(q1));
    assert(column_ops(cq) == column_ops(col.take(q1)) + cell_ops(cq.last(), q1 as usize));
    if c1 == c2 {
        lemma_column_prefix(col, q1 + 1, q2);
    } else {
        lemma_column_prefix(col, q1 + 1, col.len() as int);
        assert(col.take(col.len() as int) =~= col);
        let gc = g.take(c1 + 1);
        assert(gc.drop_last() =~= g.take(c1));
        assert(grid_ops(gc) == grid_ops(g.take(c1)) + column_ops(gc.last()));
        lemma_grid_prefix(g, c1 + 1, c2);
    }
}

proof fn lemma_column_positions_onto(col: Seq<Option<Cell>>, m: int, j: int)
    requires
        0 <= m <= col.len(),
        0 <= j < column_ops(col.take(m)).len(),
    ensures
        exists|q: int|
            0 <= q < m && produces(col[q]) && #[trigger] column_ops(col.take(q)).len() == j,
    decreases m,
{
    let pre = col.take(m);
    assert(pre.drop_last() =~= col.take(m - 1));
    assert(column_ops(pre) == column_ops(col.take(m - 1)) + cell_ops(pre.last(), (m - 1) as usize));
    lemma_cell_ops_len(col[m - 1], (m - 1) as usize);
    if j < column_ops(col.take(m - 1)).len() {
        lemma_column_positions_onto(col, m - 1, j);
    } else {
        assert(produces(col[m - 1]) && column_ops(col.take(m - 1)).len() == j);
    }
}

proof fn lemma_grid_positions_onto(g: Seq<Seq<Option<Cell>>>, k: int, i: int)
    requires
        0 <= k <= g.len(),
        0 <= i < grid_ops(g.take(k)).len(),
    ensures
        exists|c: int, q: int|
            0 <= c < k && 0 <= q < g[c].len() && produces(g[c][q]) && #[trigger] op_position(
                g,
                c,
                q,
            ) == i,
    decreases k,
{
    let pre = g.take(k);
    assert(pre.drop_last() =~= g.take(k - 1));
    assert(grid_ops(pre) == grid_ops(g.take(k - 1)) + column_ops(pre.last()));
    if i < grid_ops(g.take(k - 1)).len() {
        lemma_grid_positions_onto(g, k - 1, i);
    } else {
        let col = g[k - 1];
        let j = i - grid_ops(g.take(k - 1)).len();
        assert(col.take(col.len() as int) =~= col);
        lemma_column_positions_onto(col, col.len() as int, j);
        let q = choose|q: int|
            0 <= q < col.len() && produces(col[q]) && #[trigger] column_ops(col.take(q)).len() == j;
        assert(op_position(g, k - 1, q) == i);
    }
}

/// Every entry of the grid's list of operations is the operation of some cell:
/// the list holds nothing but one operation per contributing cell.
pub proof fn lemma_positions_onto(g: Seq<Seq<Option<Cell>>>, i: int)
    requires
        0 <= i < grid_ops(g).len(),
    ensures
        exists|c: int, q: int|
            0 <= c < g.len() && 0 <= q < g[c].len() && produces(g[c][q]) && #[trigger] op_position(
                g,
                c,
                q,
            ) == i,
{
    assert(g.take(g.len() as int) =~= g);
    lemma_grid_positions_onto(g, g.len() as int, i);
}

/// Placing a CNOT puts its control end on the control's qubit and its target
/// end on the target's qubit, each naming the other; other cells change only
/// where the two cells' earlier CNOTs had their other ends.
pub proof fn lemma_with_cnot_cells(col: Seq<Option<Cell>>, control: usize, target: usize)
    requires
        clear_ok(col, control),
        clear_ok(cleared(col, control), target),
        control != target,
    ensures
        with_cnot(col, control, target).len() == col.len(),
        with_cnot(col, control, target)[control as int] == Some(Cell::CnotCtrl(target)),
        with_cnot(col, control, target)[target as int] == Some(Cell::CnotTarg(control)),
        forall|r: int|
            0 <= r < col.len() && r != control && r != target && partner(col[control as int])
                != Some(r as usize) && partner(col[target as int]) != Some(r as usize)
                ==> #[trigger] with_cnot(col, control, target)[r] == col[r],
{
    let c1 = cleared(col, control);
    lemma_cleared_frame(col, control);
    lemma_cleared_frame(c1, target);
    assert forall|r: int|
        0 <= r < col.len() && r != control && r != target && partner(col[control as int]) != Some(
            r as usize,
        ) && partner(col[target as int]) != Some(r as usize) implies #[trigger] with_cnot(
        col,
        control,
        target,
    )[r] == col[r] by {
        assert(c1[r] == col[r]);
        if partner(c1[target as int]) == Some(r as usize) {
            assert(c1[target as int] == col[target as int]);
        }
        assert(cleared(c1, target)[r] == c1[r]);
    }
}

/// Clearing a cell twice is clearing it once.
pub proof fn lemma_clear_twice(col: Seq<Option<Cell>>, q: usize)
    requires
        clear_ok(col, q),
    ensures
        cleared(cleared(col, q), q) == cleared(col, q),
{
    assert(cleared(cleared(col, q), q) =~= cleared(col, q));
}

/// Clearing either end of a CNOT removes it whole: the column is then what
/// clearing its two cells, without placing the CNOT, would have left.
pub proof fn lemma_clear_removes_cnot(col: Seq<Option<Cell>>, control: usize, target: usize, q: usize)
    requires
        column_wf(col),
        control < col.len(),
        target < col.len(),
        control != target,
        col.len() <= usize::MAX,
        q == control || q == target,
    ensures
        cleared(with_cnot(col, control, target), q) == cleared(cleared(col, control), target),
{
    lemma_with_cnot_wf(col, control, target);
    lemma_cleared_wf(col, control);
    lemma_cleared_wf(cleared(col, control), target);
    assert(cleared(with_cnot(col, control, target), q) =~= cleared(cleared(col, control), target));
}

/// Setting a single-qubit gate into a cleared cell keeps the column paired.
pub proof fn lemma_single_wf(col: Seq<Option<Cell>>, q: usize, cell: Cell)
    requires
        column_wf(col),
        q < col.len(),
        col.len() <= usize::MAX,
        cell.is_single(),
    ensures
        column_wf(cleared(col, q).update(q as int, Some(cell))),
{
    lemma_cleared_wf(col, q);
    let cc = cleared(col, q);
    let new = cc.update(q as int, Some(cell));
    assert forall|r: int| 0 <= r < new.len() implies #[trigger] paired(new, r) by {
        assert(paired(cc, r));
        if r != q {
            match cc[r] {
                Some(Cell::CnotCtrl(t)) => {
                    assert(t != q);
                }
                Some(Cell::CnotTarg(c)) => {
                    assert(c != q);
                }
                _ => {}
            }
        }
    }
}

/// Putting a CNOT into two cleared cells of a column keeps it paired.
pub proof fn lemma_with_cnot_wf(col: Seq<Option<Cell>>, control: usize, target: usize)
    requires
        column_wf(col),
        control < col.len(),
        target < col.len(),
        control != target,
        col.len() <= usize::MAX,
    ensures
        clear_ok(col, control),
        clear_ok(cleared(col, control), target),
        column_wf(with_cnot(col, control, target)),
        with_cnot(col, control, target).len() == col.len(),
{
    lemma_cleared_wf(col, control);
    let c1 = cleared(col, control);
    lemma_cleared_wf(c1, target);
    let cc = cleared(c1, target);
    assert(cc[control as int] == None::<Cell>);
    let new = with_cnot(col, control, target);
    assert forall|r: int| 0 <= r < new.len() implies #[trigger] paired(new, r) by {
        assert(paired(cc, r));
        if r != control && r != target {
            match cc[r] {
                Some(Cell::CnotCtrl(t)) => {
                    assert(t != control && t != target);
                }
                Some(Cell::CnotTarg(c)) => {
                    assert(c != control && c != target);
                }
                _ => {}
            }
        }
    }
}

/// The operations of the first `k` cells of a paired column name only
/// qubits of the column, and no CNOT has equal control and target.
proof fn lemma_column_ops_in_range(col: Seq<Option<Cell>>, k: int)
    requires
        column_wf(col),
        0 <= k <= col.len(),
        col.len() <= usize::MAX,
    ensures
        forall|i: int|
            0 <= i < column_ops(col.take(k)).len() ==> #[trigger] column_ops(col.take(k))[i].in_range(
                col.len(),
            ),
    decreases k,
{
    if k > 0 {
        let pre = col.take(k);
        assert(pre.drop_last() =~= col.take(k - 1));
        lemma_column_ops_in_range(col, k - 1);
        assert(paired(col, k - 1));
        let tail = cell_ops(col[k - 1], (k - 1) as usize);
        assert forall|i: int| 0 <= i < tail.len() implies #[trigger] tail[i].in_range(col.len()) by {
        }
        let all = column_ops(pre);
        assert(all == column_ops(col.take(k - 1)) + tail);
        assert forall|i: int| 0 <= i < all.len() implies #[trigger] all[i].in_range(col.len()) by {
            if i >= column_ops(col.take(k - 1)).len() {
                assert(all[i] == tail[i - column_ops(col.take(k - 1)).len()]);
            } else {
                assert(all[i] == column_ops(col.take(k - 1))[i]);
            }
        }
    }
}

/// Empties cell `q` of the column, and the other end of its CNOT, if any.
fn clear_in_column(column: &mut Vec<Option<Cell>>, q: usize)
    requires
        clear_ok(old(column)@, q),
    ensures
        final(column)@ == cleared(old(column)@, q),
{
    let other = match column[q] {
        Some(Cell::CnotCtrl(t)) => Some(t),
        Some(Cell::CnotTarg(c)) => Some(c),
        _ => None,
    };
    column.set(q, None);
    if let Some(p) = other {
        column.set(p, None);
    }
}

/// A column of `n` empty cells.
fn empty_column(n: usize) -> (column: Vec<Option<Cell>>)
    ensures
        column@.len() == n,
        forall|q: int| 0 <= q < n ==> column@[q] == None::<Cell>,
{
    let mut column: Vec<Option<Cell>> = Vec::new();
    for j in 0..n
        invariant
            column.len() == j,
            forall|q: int| 0 <= q < j ==> column@[q] == None::<Cell>,
    {
        column.push(None);
    }
    column
}

impl Circuit {
    /// The grid of cells, column by column.
    pub open spec fn grid(&self) -> Seq<Seq<Option<Cell>>> {
        self.cols@.map_values(|c: Vec<Option<Cell>>| c@)
    }

    /// Every column has one cell per qubit, and every CNOT cell is paired
    /// with its other end.
    pub open spec fn wf(&self) -> bool {
        forall|c: int|
            0 <= c < self.grid().len() ==> #[trigger] self.grid()[c].len() == self.qubits
                && column_wf(self.grid()[c])
    }

    /// The operations of the circuit, in the order in which they apply.
    pub open spec fn spec_ops(&self) -> Seq<Op> {
        grid_ops(self.grid())
    }

    /// An empty circuit of `cols` columns on `qubits` qubits.
    pub fn new(qubits: usize, cols: usize) -> (c: Self)
        ensures
            c.qubits == qubits,
            c.grid().len() == cols,
            forall|i: int, q: int|
                0 <= i < cols && 0 <= q < qubits ==> #[trigger] c.grid()[i][q] == None::<Cell>,
            c.wf(),
    {
        let mut grid: Vec<Vec<Option<Cell>>> = Vec::new();
        for i in 0..cols
            invariant
                grid.len() == i,
                forall|k: int|
                    #![trigger grid@[k]]
                    0 <= k < i ==> grid@[k]@.len() == qubits && forall|q: int|
                        0 <= q < qubits ==> grid@[k]@[q] == None::<Cell>,
        {
            let column = empty_column(qubits);
            let ghost prev = grid@;
            grid.push(column);
            assert forall|k: int|
                #![trigger grid@[k]]
                0 <= k < i + 1 implies grid@[k]@.len() == qubits && forall|q: int|
                    0 <= q < qubits ==> grid@[k]@[q] == None::<Cell> by {
                if k < i {
                    assert(grid@[k] == prev[k]);
                }
            }
        }
        let c = Circuit { qubits, cols: grid };
        assert forall|i: int, q: int|
            0 <= i < cols && 0 <= q < qubits implies #[trigger] c.grid()[i][q] == None::<Cell> by {
            assert(c.grid()[i] == c.cols@[i]@);
        }
        assert forall|i: int| 0 <= i < c.grid().len() implies #[trigger] c.grid()[i].len()
            == c.qubits && column_wf(c.grid()[i]) by {
            assert forall|q: int| 0 <= q < c.grid()[i].len() implies #[trigger] paired(
                c.grid()[i],
                q,
            ) by {
                assert(c.grid()[i] == c.cols@[i]@);
                assert(c.grid()[i][q] == None::<Cell>);
            }
        }
        c
    }
}

impl Circuit {
    /// Takes column `col` out of the grid, leaving an empty column in its place.
    fn take_column(&mut self, col: usize) -> (column: Vec<Option<Cell>>)
        requires
            col < old(self).grid().len(),
        ensures
            column@ == old(self).grid()[col as int],
            final(self).qubits == old(self).qubits,
            final(self).cols.len() == old(self).cols.len(),
            forall|c: int|
                0 <= c < old(self).grid().len() && c != col ==> #[trigger] final(self).grid()[c]
                    == old(self).grid()[c],
    {
        let mut column: Vec<Option<Cell>> = Vec::new();
        self.cols.set_and_swap(col, &mut column);
        column
    }

    /// Puts `column` back as column `col`.
    fn put_column(&mut self, col: usize, column: Vec<Option<Cell>>)
        requires
            col < old(self).grid().len(),
        ensures
            final(self).qubits == old(self).qubits,
            final(self).grid() == old(self).grid().update(col as int, column@),
    {
        self.cols.set(col, column);
        assert(self.grid() =~= old(self).grid().update(col as int, column@));
    }

    /// Empties the cell of column `col` on qubit `q`; where it is one end of
    /// a CNOT, the other end is emptied too.
    pub fn clear(&mut self, col: usize, q: usize)
        requires
            col < old(self).grid().len(),
            clear_ok(old(self).grid()[col as int], q),
        ensures
            final(self).qubits == old(self).qubits,
            final(self).grid() == old(self).grid().update(
                col as int,
                cleared(old(self).grid()[col as int], q),
            ),
            old(self).wf() ==> final(self).wf(),
    {
        let ghost g = self.grid();
        let mut column = self.take_column(col);
        clear_in_column(&mut column, q);
        self.put_column(col, column);
        proof {
            if old(self).wf() {
                lemma_cleared_wf(g[col as int], q);
                assert forall|c: int| 0 <= c < self.grid().len() implies #[trigger] self.grid()[c].len()
                    == self.qubits && column_wf(self.grid()[c]) by {
                    assert(g[c].len() == self.qubits && column_wf(g[c]));
                }
            }
        }
    }
}

impl Circuit {
    /// Puts `cell` on qubit `q` of column `col`, after clearing what was
    /// there (with the other end of its CNOT, if any).
    pub fn place_single(&mut self, col: usize, q: usize, cell: Cell)
        requires
            col < old(self).grid().len(),
            clear_ok(old(self).grid()[col as int], q),
        ensures
            final(self).qubits == old(self).qubits,
            final(self).grid() == old(self).grid().update(
                col as int,
                cleared(old(self).grid()[col as int], q).update(q as int, Some(cell)),
            ),
            old(self).wf() && cell.is_single() ==> final(self).wf(),
    {
        let ghost g = self.grid();
        let mut column = self.take_column(col);
        clear_in_column(&mut column, q);
        column.set(q, Some(cell));
        self.put_column(col, column);
        proof {
            if old(self).wf() && cell.is_single() {
                lemma_single_wf(g[col as int], q, cell);
                assert forall|c: int| 0 <= c < self.grid().len() implies #[trigger] self.grid()[c].len()
                    == self.qubits && column_wf(self.grid()[c]) by {
                    assert(g[c].len() == self.qubits && column_wf(g[c]));
                }
            }
        }
    }

    /// Puts a CNOT from qubit `control` to qubit `target` into column `col`,
    /// after clearing both cells; returns whether it did. It does not when
    /// the two qubits are the same or either is not a qubit of the circuit,
    /// and then nothing changes.
    pub fn place_cnot(&mut self, col: usize, control: usize, target: usize) -> (placed: bool)
        requires
            control != target && control < old(self).qubits && target < old(self).qubits ==> {
                &&& col < old(self).grid().len()
                &&& clear_ok(old(self).grid()[col as int], control)
                &&& clear_ok(cleared(old(self).grid()[col as int], control), target)
            },
        ensures
            placed == (control != target && control < old(self).qubits && target < old(
                self,
            ).qubits),
            final(self).qubits == old(self).qubits,
            placed ==> final(self).grid() == old(self).grid().update(
                col as int,
                with_cnot(old(self).grid()[col as int], control, target),
            ),
            !placed ==> final(self).grid() == old(self).grid(),
            old(self).wf() ==> final(self).wf(),
    {
        if control == target || control >= self.qubits || target >= self.qubits {
            return false;
        }
        let ghost g = self.grid();
        let mut column = self.take_column(col);
        clear_in_column(&mut column, control);
        clear_in_column(&mut column, target);
        column.set(control, Some(Cell::CnotCtrl(target)));
        column.set(target, Some(Cell::CnotTarg(control)));
        self.put_column(col, column);
        proof {
            if old(self).wf() {
                lemma_with_cnot_wf(g[col as int], control, target);
                assert forall|c: int| 0 <= c < self.grid().len() implies #[trigger] self.grid()[c].len()
                    == self.qubits && column_wf(self.grid()[c]) by {
                    assert(g[c].len() == self.qubits && column_wf(g[c]));
                }
            }
        }
        true
    }
}

impl Circuit {
    /// The operations of the circuit: column by column from the left, and in
    /// each column qubit by qubit from qubit 0 up; a CNOT appears once, at
    /// its control.
    pub fn ops(&self) -> (out: Vec<Op>)
        ensures
            out@ == self.spec_ops(),
    {
        let ghost g = self.grid();
        let mut out: Vec<Op> = Vec::new();
        let n = self.cols.len();
        for c in 0..n
            invariant
                n == self.cols.len(),
                g == self.grid(),
                out@ == grid_ops(g.take(c as int)),
        {
            let column = &self.cols[c];
            assert(column@ == g[c as int]);
            let m = column.len();
            for q in 0..m
                invariant
                    m == column.len(),
                    column@ == g[c as int],
                    out@ == grid_ops(g.take(c as int)) + column_ops(column@.take(q as int)),
            {
                let ghost prev = out@;
                match column[q] {
                    None => {},
                    Some(Cell::CnotTarg(_)) => {},
                    Some(Cell::H) => out.push(Op::H(q)),
                    Some(Cell::X) => out.push(Op::X(q)),
                    Some(Cell::Y) => out.push(Op::Y(q)),
                    Some(Cell::Z) => out.push(Op::Z(q)),
                    Some(Cell::S) => out.push(Op::S(q)),
                    Some(Cell::T) => out.push(Op::T(q)),
                    Some(Cell::CnotCtrl(t)) => out.push(Op::Cnot { control: q, target: t }),
                }
                proof {
                    let cq = column@.take(q as int + 1);
                    assert(cq.drop_last() =~= column@.take(q as int));
                    assert(cq.last() == column@[q as int]);
                    assert(out@ =~= prev + cell_ops(column@[q as int], q));
                }
            }
            proof {
                assert(column@.take(m as int) =~= column@);
                let gc = g.take(c as int + 1);
                assert(gc.drop_last() =~= g.take(c as int));
            }
        }
        proof {
            assert(g.take(n as int) =~= g);
        }
        out
    }
}

impl Circuit {
    /// Runs the circuit on the basis state with every qubit 0, built from
    /// `zero` and `one`, applying its operations in order; `gate` computes
    /// what a single-qubit gate makes of each pair of amplitudes.
    pub fn run<A: Copy, F: Fn(Gate, A, A) -> (A, A)>(&self, zero: A, one: A, gate: &F) -> (s: State<
        A,
    >)
        requires
            self.qubits < usize::BITS,
            forall|i: int|
                0 <= i < self.spec_ops().len() ==> fits(
                    #[trigger] self.spec_ops()[i],
                    pow2(self.qubits as nat),
                ),
            forall|g: Gate, x: A, y: A| call_requires(*gate, (g, x, y)),
        ensures
            s.qubits == self.qubits,
            runs(*gate, zero_amps(self.qubits as nat, zero, one), self.spec_ops(), s.amps@),
    {
        let mut s = State::zero(self.qubits, zero, one);
        let ghost start = s.amps@;
        let ops = self.ops();
        let n = ops.len();
        for i in 0..n
            invariant
                n == ops.len(),
                ops@ == self.spec_ops(),
                s.qubits == self.qubits,
                s.amps@.len() == pow2(self.qubits as nat),
                start == zero_amps(self.qubits as nat, zero, one),
                forall|j: int|
                    0 <= j < self.spec_ops().len() ==> fits(
                        #[trigger] self.spec_ops()[j],
                        pow2(self.qubits as nat),
                    ),
                forall|g: Gate, x: A, y: A| call_requires(*gate, (g, x, y)),
                runs(*gate, start, ops@.take(i as int), s.amps@),
        {
            let ghost before = s.amps@;
            assert(fits(ops@[i as int], pow2(self.qubits as nat)));
            s.apply(ops[i], gate);
            proof {
                lemma_runs_step(*gate, start, ops@.take(i as int), before, ops@[i as int], s.amps@);
                assert(ops@.take(i as int).push(ops@[i as int]) =~= ops@.take(i as int + 1));
            }
        }
        assert(ops@.take(n as int) =~= ops@);
        s
    }
}

/// Every operation of a well-formed circuit on fewer than `usize::BITS`
/// qubits can be applied to a state of its qubits.
pub proof fn lemma_ops_fit(c: &Circuit)
    requires
        c.wf(),
        c.qubits < usize::BITS,
    ensures
        forall|i: int|
            0 <= i < c.spec_ops().len() ==> fits(#[trigger] c.spec_ops()[i], pow2(c.qubits as nat)),
{
    lemma_ops_in_range(c);
    assert forall|i: int| 0 <= i < c.spec_ops().len() implies fits(
        #[trigger] c.spec_ops()[i],
        pow2(c.qubits as nat),
    ) by {
        assert(c.spec_ops()[i].in_range(c.qubits as nat));
        lemma_fits_qubits(c.spec_ops()[i], c.qubits);
    }
}

/// The operations of a well-formed circuit name only its qubits, and no
/// CNOT among them has equal control and target.
pub proof fn lemma_ops_in_range(c: &Circuit)
    requires
        c.wf(),
    ensures
        forall|i: int| 0 <= i < c.spec_ops().len() ==> #[trigger] c.spec_ops()[i].in_range(c.qubits as nat),
{
    lemma_grid_ops_in_range(c, c.grid().len() as int);
    assert(c.grid().take(c.grid().len() as int) =~= c.grid());
}

proof fn lemma_grid_ops_in_range(c: &Circuit, k: int)
    requires
        c.wf(),
        0 <= k <= c.grid().len(),
    ensures
        forall|i: int|
            0 <= i < grid_ops(c.grid().take(k)).len() ==> #[trigger] grid_ops(c.grid().take(k))[i].in_range(
                c.qubits as nat,
            ),
    decreases k,
{
    if k > 0 {
        let g = c.grid();
        let pre = g.take(k);
        assert(pre.drop_last() =~= g.take(k - 1));
        lemma_grid_ops_in_range(c, k - 1);
        let col = g[k - 1];
        assert(col.len() == c.qubits && column_wf(col));
        assert(col == c.cols@[k - 1]@);
        lemma_column_ops_in_range(col, col.len() as int);
        assert(col.take(col.len() as int) =~= col);
        let front = grid_ops(g.take(k - 1));
        let tail = column_ops(col);
        let all = grid_ops(pre);
        assert(all == front + tail);
        assert forall|i: int| 0 <= i < all.len() implies #[trigger] all[i].in_range(c.qubits as nat) by {
            if i >= front.len() {
                assert(all[i] == tail[i - front.len()]);
            } else {
                assert(all[i] == front[i]);
            }
        }
    }
}

} // verus!
