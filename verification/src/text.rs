//! Text that the circuit editor shows: basis-state labels and probability bars.
use vstd::prelude::*;

verus! {

use crate::bits::has_bit;

/// The label of basis state `i` on `n` qubits: one character per qubit,
/// qubit `n - 1` first, `'1'` where the qubit's bit of `i` is set.
pub open spec fn bits_label(i: usize, n: nat) -> Seq<char> {
    Seq::new(n, |k: int| if has_bit(i, (n - 1 - k) as usize) { '1' } else { '0' })
}

/// Writes basis state `i` of `n` qubits as a string of `0`s and `1`s, the
/// highest qubit first.
pub fn format_bits(i: usize, n: usize) -> (s: String)
    requires
        n <= usize::BITS,
    ensures
        s@ == bits_label(i, n as nat),
{
    let mut s = String::new();
    let mut k = n;
    while k > 0
        invariant
            k <= n,
            n <= usize::BITS,
            s@.len() == n - k,
            forall|j: int|
                0 <= j < n - k ==> s@[j] == (if has_bit(i, (n - 1 - j) as usize) {
                    '1'
                } else {
                    '0'
                }),
        decreases k,
    {
        k = k - 1;
        let ghost prev = s@;
        if i & (1usize << k) != 0 {
            proof {
                reveal_strlit("1");
            }
            s.append("1");
        } else {
            proof {
                reveal_strlit("0");
            }
            s.append("0");
        }
        assert(s@[n - 1 - k] == (if has_bit(i, k) { '1' } else { '0' }));
        assert forall|j: int| 0 <= j < n - k implies s@[j] == (if has_bit(i, (n - 1 - j) as usize) {
            '1'
        } else {
            '0'
        }) by {
            if j < n - k - 1 {
                assert(s@[j] == prev[j]);
            }
        }
    }
    assert(s@ =~= bits_label(i, n as nat));
    s
}

/// One more qubit puts its bit in front of the label; the label of no qubits
/// is empty, and basis state 0 is labelled all `'0'`.
pub proof fn lemma_bits_label(i: usize, n: nat)
    requires
        n < usize::BITS,
    ensures
        bits_label(i, 0) == Seq::<char>::empty(),
        bits_label(i, n + 1) == seq![if has_bit(i, n as usize) { '1' } else { '0' }] + bits_label(i, n),
        forall|k: int| 0 <= k < n ==> #[trigger] bits_label(0, n)[k] == '0',
{
    assert(bits_label(i, 0) =~= Seq::<char>::empty());
    assert(bits_label(i, n + 1) =~= seq![if has_bit(i, n as usize) { '1' } else { '0' }] + bits_label(i, n));
    assert forall|k: int| 0 <= k < n implies #[trigger] bits_label(0, n)[k] == '0' by {
        let b = (n - 1 - k) as usize;
        assert(0usize & (1usize << b) == 0) by (bit_vector);
    }
}

/// A full bar is all `'█'`, an empty one all `'░'`, and filling one more
/// cell turns the first empty cell, and only it, full.
pub proof fn lemma_bar_cells(filled: nat, width: nat)
    ensures
        forall|k: int| 0 <= k < width ==> #[trigger] bar_cells(width, width)[k] == '█',
        forall|k: int| 0 <= k < width ==> #[trigger] bar_cells(0, width)[k] == '░',
        filled < width ==> bar_cells(filled + 1, width) == bar_cells(filled, width).update(
            filled as int,
            '█',
        ) && bar_cells(filled, width)[filled as int] == '░',
{
    if filled < width {
        assert(bar_cells(filled + 1, width) =~= bar_cells(filled, width).update(filled as int, '█'));
    }
}

/// A bar of `width` cells whose first `min(filled, width)` cells are full.
pub open spec fn bar_cells(filled: nat, width: nat) -> Seq<char> {
    Seq::new(width, |k: int| if k < filled { '█' } else { '░' })
}

/// Draws a bar of `width` cells, the first `filled` of them full (all of
/// them where `filled` exceeds `width`).
pub fn bar(filled: usize, width: usize) -> (s: String)
    ensures
        s@ == bar_cells(filled as nat, width as nat),
{
    let filled = if filled < width { filled } else { width };
    let mut s = String::new();
    for k in 0..filled
        invariant
            filled <= width,
            s@.len() == k,
            forall|j: int| 0 <= j < k ==> s@[j] == '█',
    {
        proof {
            reveal_strlit("█");
        }
        s.append("█");
    }
    for k in filled..width
        invariant
            filled <= k <= width,
            s@.len() == k,
            forall|j: int| 0 <= j < filled ==> s@[j] == '█',
            forall|j: int| filled <= j < k ==> s@[j] == '░',
    {
        proof {
            reveal_strlit("░");
        }
        s.append("░");
    }
    assert(s@ =~= bar_cells(filled as nat, width as nat));
    s
}

} // verus!
