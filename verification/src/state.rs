//! State vectors over an amplitude type of the caller's choice, and the
//! index bookkeeping that applies gates to them.
use vstd::prelude::*;

verus! {

use vstd::arithmetic::power2::pow2;
use crate::bits::{has_bit, flip_bit, lemma_flip_bit, lemma_lower_half_bit, lemma_bits_below, lemma_shl_one, lemma_next_block, lemma_block_fits, lemma_lower_half_before, lemma_offset_in_block};
use crate::gate::{Gate, Op};

/// `after[a]` and `after[a + s]` are what `gate` gives for `kind` on
/// `before[a]` and `before[a + s]`.
pub open spec fn pair_updated<A, F: Fn(Gate, A, A) -> (A, A)>(
    gate: F,
    kind: Gate,
    before: Seq<A>,
    after: Seq<A>,
    a: int,
    s: int,
) -> bool {
    call_ensures(gate, (kind, before[a], before[a + s]), (after[a], after[a + s]))
}

/// An index whose bit `q` is clear: the lower index of a pair that a gate
/// on qubit `q` acts on.
pub open spec fn lower_index(a: int, q: usize) -> bool {
    a % (pow2(q as nat + 1) as int) < pow2(q as nat) as int
}

/// `after` is `before` with `kind` applied to qubit `q`: each pair of
/// indices that differ in bit `q` alone holds what `gate` gives for that pair.
pub open spec fn applied_1q<A, F: Fn(Gate, A, A) -> (A, A)>(
    gate: F,
    kind: Gate,
    q: usize,
    before: Seq<A>,
    after: Seq<A>,
) -> bool {
    &&& after.len() == before.len()
    &&& forall|a: int|
        0 <= a < before.len() && lower_index(a, q) ==> #[trigger] pair_updated(
            gate,
            kind,
            before,
            after,
            a,
            pow2(q as nat) as int,
        )
}

/// A single-qubit gate on qubit `q` can be applied to a state of `len`
/// amplitudes: the pairs of indices that differ in bit `q` tile `0..len`.
pub open spec fn fits_1q(len: nat, q: usize) -> bool {
    q < usize::BITS && len % pow2(q as nat + 1) == 0
}

/// The pairs of a single-qubit gate cover every amplitude: an index is
/// either the lower end of a pair whose upper end is in range, or the upper
/// end of a pair whose lower end is `2^q` below it.
pub proof fn lemma_pairs_cover(len: nat, q: usize, i: int)
    requires
        fits_1q(len, q),
        0 <= i < len,
    ensures
        lower_index(i, q) ==> i + pow2(q as nat) < len,
        !lower_index(i, q) ==> i - pow2(q as nat) >= 0 && lower_index(i - pow2(q as nat), q),
{
    let s = pow2(q as nat) as int;
    let b = pow2(q as nat + 1) as int;
    vstd::arithmetic::power2::lemma_pow2_unfold(q as nat + 1);
    vstd::arithmetic::power2::lemma_pow2_pos(q as nat);
    vstd::arithmetic::div_mod::lemma_fundamental_div_mod(i, b);
    let j = i / b;
    let r = i % b;
    let base = b * j;
    assert(j >= 0) by (nonlinear_arith)
        requires
            b > 0,
            i >= 0,
            j == i / b,
    ;
    assert(b * j >= 0) by (nonlinear_arith)
        requires
            b > 0,
            j >= 0,
    ;
    assert(j * b == b * j) by (nonlinear_arith);
    vstd::arithmetic::div_mod::lemma_fundamental_div_mod_converse(base, b, j, 0);
    if r < s {
        lemma_block_fits(base, len as int, b);
    } else {
        lemma_offset_in_block(i - s, base, b);
    }
}

/// A single-qubit gate on qubit `q` acts on the pairs of indices that differ
/// in bit `q` alone: for every index `a` with bit `q` clear, its partner with
/// bit `q` set is in range, and the two new amplitudes are what `gate` gives
/// for the two old ones, the bit-clear one first.
pub proof fn lemma_1q_bits<A, F: Fn(Gate, A, A) -> (A, A)>(
    gate: F,
    kind: Gate,
    q: usize,
    before: Seq<A>,
    after: Seq<A>,
    a: usize,
)
    requires
        fits_1q(before.len(), q),
        applied_1q(gate, kind, q, before, after),
        a < before.len(),
        !has_bit(a, q),
    ensures
        flip_bit(a, q) < before.len(),
        after.len() == before.len(),
        call_ensures(
            gate,
            (kind, before[a as int], before[flip_bit(a, q) as int]),
            (after[a as int], after[flip_bit(a, q) as int]),
        ),
{
    lemma_lower_half_bit(a, q);
    lemma_pairs_cover(before.len(), q, a as int);
    assert(pair_updated(gate, kind, before, after, a as int, pow2(q as nat) as int));
}

/// Applies `kind` to qubit `q`, pair by pair, block by block.
fn apply_1q<A: Copy, F: Fn(Gate, A, A) -> (A, A)>(amps: &mut Vec<A>, q: usize, kind: Gate, gate: &F)
    requires
        fits_1q(old(amps).len() as nat, q),
        forall|x: A, y: A| call_requires(*gate, (kind, x, y)),
    ensures
        applied_1q(*gate, kind, q, old(amps)@, final(amps)@),
{
    let ghost before = amps@;
    let len = amps.len();
    proof {
        lemma_shl_one(q);
        vstd::arithmetic::power2::lemma_pow2_unfold(q as nat + 1);
        vstd::arithmetic::power2::lemma_pow2_pos(q as nat);
    }
    let stride = 1usize << q;
    if len == 0 {
        return;
    }
    proof {
        assert(pow2(q as nat + 1) <= len) by {
            vstd::arithmetic::div_mod::lemma_mod_is_zero(len as nat, pow2(q as nat + 1));
        }
    }
    let block = stride + stride;
    let ghost s = stride as int;
    let ghost b = block as int;
    assert((len as int) % b == 0);
    let mut base: usize = 0;
    while base < len
        invariant
            amps.len() == len,
            len == before.len(),
            s == stride,
            s == pow2(q as nat),
            b == block,
            b == 2 * s,
            s > 0,
            (len as int) % b == 0,
            (base as int) % b == 0,
            base <= len,
            forall|x: A, y: A| call_requires(*gate, (kind, x, y)),
            forall|a: int|
                0 <= a < base && a % b < s ==> #[trigger] pair_updated(
                    *gate,
                    kind,
                    before,
                    amps@,
                    a,
                    s,
                ),
            forall|i: int| base <= i < len ==> amps@[i] == before[i],
        decreases len - base,
    {
        proof {
            lemma_block_fits(base as int, len as int, b);
        }
        let ghost start = amps@;
        for k in 0..stride
            invariant
                amps.len() == len,
                len == before.len(),
                s == stride,
                s == pow2(q as nat),
                b == 2 * s,
                s > 0,
                (base as int) % b == 0,
                base + b <= len,
                forall|x: A, y: A| call_requires(*gate, (kind, x, y)),
                forall|a: int|
                    0 <= a < base && a % b < s ==> #[trigger] pair_updated(
                        *gate,
                        kind,
                        before,
                        amps@,
                        a,
                        s,
                    ),
                forall|a: int|
                    base <= a < base + k ==> #[trigger] pair_updated(
                        *gate,
                        kind,
                        before,
                        amps@,
                        a,
                        s,
                    ),
                forall|i: int|
                    base <= i < len && !(base <= i < base + k) && !(base + s <= i < base + s + k)
                        ==> amps@[i] == before[i],
        {
            let a = base + k;
            let bi = a + stride;
            let va = amps[a];
            let vb = amps[bi];
            let (na, nb) = gate(kind, va, vb);
            let ghost prev = amps@;
            amps.set(a, na);
            amps.set(bi, nb);
            proof {
                assert forall|x: int|
                    0 <= x < base && x % b < s implies #[trigger] pair_updated(
                        *gate,
                        kind,
                        before,
                        amps@,
                        x,
                        s,
                    ) by {
                    assert(pair_updated(*gate, kind, before, prev, x, s));
                    lemma_lower_half_before(x, base as int, s);
                }
                assert forall|x: int|
                    base <= x < base + k + 1 implies #[trigger] pair_updated(
                        *gate,
                        kind,
                        before,
                        amps@,
                        x,
                        s,
                    ) by {
                    if x < base + k {
                        assert(pair_updated(*gate, kind, before, prev, x, s));
                    }
                }
            }
        }
        proof {
            assert forall|x: int|
                0 <= x < base + b && x % b < s implies #[trigger] pair_updated(
                    *gate,
                    kind,
                    before,
                    amps@,
                    x,
                    s,
                ) by {
                if x >= base {
                    lemma_offset_in_block(x, base as int, b);
                }
            }
            lemma_next_block(base as int, b);
        }
        base = base + block;
    }
}

/// The index whose amplitude a CNOT with the given control and target
/// moves to index `i`: where the control bit is set, the target bit is
/// flipped; elsewhere nothing moves.
pub open spec fn cnot_source(i: usize, control: usize, target: usize) -> usize {
    if control != target && has_bit(i, control) {
        flip_bit(i, target)
    } else {
        i
    }
}

/// A CNOT with the given control and target can be applied to a state of
/// `len` amplitudes: every index it moves has its partner in range.
pub open spec fn fits_cnot(len: nat, control: usize, target: usize) -> bool {
    &&& control < usize::BITS
    &&& target < usize::BITS
    &&& forall|i: usize| i < len && has_bit(i, control) ==> #[trigger] flip_bit(i, target) < len
}

/// `after` is `before` with a CNOT applied: each amplitude comes from its
/// `cnot_source`.
pub open spec fn applied_cnot<A>(control: usize, target: usize, before: Seq<A>, after: Seq<A>) -> bool {
    &&& after.len() == before.len()
    &&& forall|i: usize|
        i < before.len() ==> after[i as int] == #[trigger] before[cnot_source(i, control, target) as int]
}

/// Swaps each pair of amplitudes whose indices differ in the target bit and
/// have the control bit set.
fn apply_cnot<A: Copy>(amps: &mut Vec<A>, control: usize, target: usize)
    requires
        fits_cnot(old(amps).len() as nat, control, target),
    ensures
        applied_cnot(control, target, old(amps)@, final(amps)@),
{
    let ghost before = amps@;
    let len = amps.len();
    let cb = 1usize << control;
    let tb = 1usize << target;
    for i in 0..len
        invariant
            amps.len() == len,
            len == before.len(),
            cb == 1usize << control,
            tb == 1usize << target,
            fits_cnot(len as nat, control, target),
            forall|k: usize|
                k < len ==> amps@[k as int] == before[if k < i || cnot_source(k, control, target) < i {
                    cnot_source(k, control, target) as int
                } else {
                    k as int
                }],
    {
        let ghost prev = amps@;
        if i & cb != 0 && i & tb == 0 {
            proof {
                assert(control != target);
                lemma_flip_bit(i, control, target);
                assert(flip_bit(i, target) < len);
            }
            let j = i | tb;
            let x = amps[i];
            let y = amps[j];
            amps.set(i, y);
            amps.set(j, x);
            proof {
                assert forall|k: usize| k < len implies amps@[k as int] == before[if k < i + 1
                    || cnot_source(k, control, target) < i + 1 {
                    cnot_source(k, control, target) as int
                } else {
                    k as int
                }] by {
                    lemma_flip_bit(k, control, target);
                    if k != i && k != j {
                        assert(amps@[k as int] == prev[k as int]);
                        if cnot_source(k, control, target) == i {
                            lemma_flip_bit(i, control, target);
                        }
                    }
                }
            }
        } else {
            proof {
                assert forall|k: usize| k < len implies amps@[k as int] == before[if k < i + 1
                    || cnot_source(k, control, target) < i + 1 {
                    cnot_source(k, control, target) as int
                } else {
                    k as int
                }] by {
                    lemma_flip_bit(k, control, target);
                }
            }
        }
    }
}

/// The operation can be applied to a state of `len` amplitudes.
pub open spec fn fits(op: Op, len: nat) -> bool {
    match op {
        Op::Cnot { control, target } => fits_cnot(len, control, target),
        _ => fits_1q(len, op.single().unwrap().1),
    }
}

/// `after` is `before` with the operation applied, single-qubit gates as
/// `gate` computes them.
pub open spec fn applied<A, F: Fn(Gate, A, A) -> (A, A)>(
    gate: F,
    op: Op,
    before: Seq<A>,
    after: Seq<A>,
) -> bool {
    match op {
        Op::Cnot { control, target } => applied_cnot(control, target, before, after),
        _ => applied_1q(gate, op.single().unwrap().0, op.single().unwrap().1, before, after),
    }
}

/// On the `2^n` amplitudes of `n` qubits: a single-qubit gate fits exactly
/// when its qubit is one of them; a CNOT whenever its control is not one of
/// them, or its control and target are equal, or both are among them.
pub open spec fn fits_qubits(op: Op, n: nat) -> bool {
    match op {
        Op::Cnot { control, target } => control < usize::BITS && target < usize::BITS && (
        control < n && control != target ==> target < n),
        _ => op.single().unwrap().1 < n,
    }
}

/// On `2^n` amplitudes, `fits` is `fits_qubits`.
#[verifier::spinoff_prover]
pub proof fn lemma_fits_qubits(op: Op, n: usize)
    requires
        n < usize::BITS,
    ensures
        fits(op, pow2(n as nat)) == fits_qubits(op, n as nat),
{
    lemma_shl_one(n);
    let len = pow2(n as nat);
    match op {
        Op::Cnot { control: c, target: t } => {
            if c < usize::BITS && t < usize::BITS {
                if c < n && c != t && t >= n {
                    lemma_bits_below(0, n, c, t);
                    let i = 1usize << c;
                    assert(i < len && has_bit(i, c));
                    assert(flip_bit(i, t) >= len);
                    assert(!fits_cnot(len, c, t));
                } else {
                    assert forall|i: usize| i < len && has_bit(i, c) implies #[trigger] flip_bit(
                        i,
                        t,
                    ) < len by {
                        lemma_bits_below(i, n, c, t);
                        lemma_flip_bit(i, c, t);
                    }
                    assert(fits_cnot(len, c, t));
                    assert(fits_qubits(op, n as nat));
                }
            }
        },
        _ => {
            let q = op.single().unwrap().1;
            vstd::arithmetic::power2::lemma_pow2_pos(n as nat);
            if q < n {
                vstd::arithmetic::power2::lemma_pow2_adds(q as nat + 1, (n - q - 1) as nat);
                vstd::arithmetic::div_mod::lemma_mod_multiples_basic(
                    pow2((n - q - 1) as nat) as int,
                    pow2(q as nat + 1) as int,
                );
            } else if q < usize::BITS {
                vstd::arithmetic::power2::lemma_pow2_strictly_increases(n as nat, q as nat + 1);
                vstd::arithmetic::div_mod::lemma_small_mod(len, pow2(q as nat + 1));
            }
        },
    }
}

impl Op {
    /// Whether the operation can be applied to a state of `qubits` qubits,
    /// that is, to `2^qubits` amplitudes.
    pub fn fits(self, qubits: usize) -> (r: bool)
        requires
            qubits < usize::BITS,
        ensures
            r == fits(self, pow2(qubits as nat)),
    {
        proof {
            lemma_fits_qubits(self, qubits);
        }
        let bits = usize::BITS as usize;
        match self {
            Op::Cnot { control, target } => control < bits && target < bits && (!(control < qubits
                && control != target) || target < qubits),
            Op::H(q) => q < qubits,
            Op::X(q) => q < qubits,
            Op::Y(q) => q < qubits,
            Op::Z(q) => q < qubits,
            Op::S(q) => q < qubits,
            Op::T(q) => q < qubits,
        }
    }
}

/// Applying the same CNOT twice gives back the amplitudes it started from.
pub proof fn lemma_cnot_twice<A>(control: usize, target: usize, a: Seq<A>, b: Seq<A>, c: Seq<A>)
    requires
        a.len() <= usize::MAX,
        fits_cnot(a.len(), control, target),
        applied_cnot(control, target, a, b),
        applied_cnot(control, target, b, c),
    ensures
        c == a,
{
    assert forall|k: int| 0 <= k < a.len() implies c[k] == a[k] by {
        let i = k as usize;
        let j = cnot_source(i, control, target);
        lemma_flip_bit(i, control, target);
        if control != target && has_bit(i, control) {
            assert(j < a.len());
            assert(cnot_source(j, control, target) == i);
        }
        assert(c[k] == b[j as int]);
        assert(b[j as int] == a[cnot_source(j, control, target) as int]);
    }
    assert(c =~= a);
}

/// `end` is what `start` becomes when the operations are applied in order,
/// single-qubit gates as `gate` computes them.
pub open spec fn runs<A, F: Fn(Gate, A, A) -> (A, A)>(
    gate: F,
    start: Seq<A>,
    ops: Seq<Op>,
    end: Seq<A>,
) -> bool
    decreases ops.len(),
{
    if ops.len() == 0 {
        end == start
    } else {
        exists|mid: Seq<A>|
            runs(gate, start, ops.drop_last(), mid) && #[trigger] applied(gate, ops.last(), mid, end)
    }
}

/// Applying one more operation extends a run by it.
pub proof fn lemma_runs_step<A, F: Fn(Gate, A, A) -> (A, A)>(
    gate: F,
    start: Seq<A>,
    ops: Seq<Op>,
    mid: Seq<A>,
    op: Op,
    end: Seq<A>,
)
    requires
        runs(gate, start, ops, mid),
        applied(gate, op, mid, end),
    ensures
        runs(gate, start, ops.push(op), end),
{
    let all = ops.push(op);
    assert(all.drop_last() =~= ops);
    assert(all.last() == op);
    assert(applied(gate, all.last(), mid, end));
}

/// The amplitudes of the basis state with every qubit 0: `one` at index 0,
/// `zero` at the other `2^qubits - 1` indices.
pub open spec fn zero_amps<A>(qubits: nat, zero: A, one: A) -> Seq<A> {
    Seq::new(pow2(qubits), |i: int| if i == 0 { one } else { zero })
}

/// The amplitudes whose index has bit `q` set, in index order.
pub open spec fn with_bit<A>(amps: Seq<A>, q: usize) -> Seq<A>
    decreases amps.len(),
{
    if amps.len() == 0 {
        seq![]
    } else {
        let rest = with_bit(amps.drop_last(), q);
        if has_bit((amps.len() - 1) as usize, q) {
            rest.push(amps.last())
        } else {
            rest
        }
    }
}

/// `with_bit` keeps exactly the amplitudes whose index has bit `q` set: each
/// of its entries is one of them, it is as long as there are such indices
/// below `k`, and taking one more index adds that amplitude when its bit is set.
pub proof fn lemma_with_bit<A>(amps: Seq<A>, q: usize, k: int)
    requires
        0 <= k <= amps.len(),
        amps.len() <= usize::MAX,
    ensures
        forall|x: int|
            0 <= x < with_bit(amps.take(k), q).len() ==> exists|j: int|
                0 <= j < k && has_bit(j as usize, q) && #[trigger] with_bit(amps.take(k), q)[x]
                    == amps[j],
        with_bit(amps.take(k), q).len() <= k,
    decreases k,
{
    if k > 0 {
        lemma_with_bit(amps, q, k - 1);
        let pre = amps.take(k);
        assert(pre.drop_last() =~= amps.take(k - 1));
        assert(pre.last() == amps[k - 1]);
        let w = with_bit(pre, q);
        let w0 = with_bit(amps.take(k - 1), q);
        assert forall|x: int| 0 <= x < w.len() implies exists|j: int|
            0 <= j < k && has_bit(j as usize, q) && #[trigger] w[x] == amps[j] by {
            if x < w0.len() {
                assert(w[x] == w0[x]);
                let j = choose|j: int|
                    0 <= j < k - 1 && has_bit(j as usize, q) && #[trigger] w0[x] == amps[j];
                assert(0 <= j < k && has_bit(j as usize, q) && w[x] == amps[j]);
            } else {
                assert(w[x] == amps[k - 1]);
            }
        }
    }
}

/// In the basis state with every qubit 0, each qubit reads 0: every
/// amplitude whose index has bit `q` set is `zero`.
pub proof fn lemma_zero_state_bits<A>(qubits: usize, zero: A, one: A, q: usize)
    requires
        qubits < usize::BITS,
    ensures
        forall|x: int|
            0 <= x < with_bit(zero_amps(qubits as nat, zero, one), q).len() ==> #[trigger] with_bit(
                zero_amps(qubits as nat, zero, one),
                q,
            )[x] == zero,
{
    let amps = zero_amps(qubits as nat, zero, one);
    lemma_shl_one(qubits);
    lemma_with_bit(amps, q, amps.len() as int);
    assert(amps.take(amps.len() as int) =~= amps);
    assert(!has_bit(0, q)) by {
        assert(0usize & (1usize << q) == 0) by (bit_vector);
    }
    assert forall|x: int| 0 <= x < with_bit(amps, q).len() implies #[trigger] with_bit(amps, q)[x]
        == zero by {
        let j = choose|j: int|
            0 <= j < amps.len() && has_bit(j as usize, q) && #[trigger] with_bit(amps.take(amps.len() as int), q)[x] == amps[j];
        assert(j != 0);
    }
}

/// `total` is what adding up, from `zero` and from the left, the norms of
/// `xs` gives, norms as `norm` and sums as `plus` compute them.
pub open spec fn sums<A, P, F: Fn(A) -> P, G: Fn(P, P) -> P>(
    norm: F,
    plus: G,
    zero: P,
    xs: Seq<A>,
    total: P,
) -> bool
    decreases xs.len(),
{
    if xs.len() == 0 {
        total == zero
    } else {
        exists|sub: P, n: P|
            sums(norm, plus, zero, xs.drop_last(), sub) && call_ensures(norm, (xs.last(),), n)
                && #[trigger] call_ensures(plus, (sub, n), total)
    }
}

/// Adding one more norm extends a sum by it.
pub proof fn lemma_sums_step<A, P, F: Fn(A) -> P, G: Fn(P, P) -> P>(
    norm: F,
    plus: G,
    zero: P,
    xs: Seq<A>,
    sub: P,
    x: A,
    n: P,
    total: P,
)
    requires
        sums(norm, plus, zero, xs, sub),
        call_ensures(norm, (x,), n),
        call_ensures(plus, (sub, n), total),
    ensures
        sums(norm, plus, zero, xs.push(x), total),
{
    let all = xs.push(x);
    assert(all.drop_last() =~= xs);
    assert(all.last() == x);
    assert(call_ensures(plus, (sub, n), total));
}

/// A state of `qubits` qubits: `amps[i]` is the amplitude of the basis state
/// in which qubit `q` is bit `q` of `i`.
#[derive(Clone, Debug)]
pub struct State<A> {
    pub qubits: usize,
    pub amps: Vec<A>,
}

impl<A: Copy> State<A> {
    /// The basis state with every qubit 0, over amplitudes whose zero and one
    /// are `zero` and `one`.
    pub fn zero(qubits: usize, zero: A, one: A) -> (s: Self)
        requires
            qubits < usize::BITS,
        ensures
            s.qubits == qubits,
            s.amps@ == zero_amps(qubits as nat, zero, one),
    {
        proof {
            lemma_shl_one(qubits);
            vstd::arithmetic::power2::lemma_pow2_pos(qubits as nat);
        }
        let n = 1usize << qubits;
        let mut amps: Vec<A> = Vec::new();
        for i in 0..n
            invariant
                amps.len() == i,
                forall|k: int| 0 <= k < i ==> amps@[k] == zero,
        {
            amps.push(zero);
        }
        amps.set(0, one);
        assert(amps@ =~= zero_amps(qubits as nat, zero, one));
        State { qubits, amps }
    }

    /// The probability of each basis state, as `norm` computes it from the
    /// basis state's amplitude.
    pub fn probabilities<P, F: Fn(A) -> P>(&self, norm: &F) -> (ps: Vec<P>)
        requires
            forall|a: A| call_requires(*norm, (a,)),
        ensures
            ps@.len() == self.amps@.len(),
            forall|i: int|
                0 <= i < self.amps@.len() ==> call_ensures(*norm, (self.amps@[i],), #[trigger] ps@[i]),
    {
        let mut ps: Vec<P> = Vec::new();
        let n = self.amps.len();
        for i in 0..n
            invariant
                n == self.amps.len(),
                ps@.len() == i,
                forall|a: A| call_requires(*norm, (a,)),
                forall|k: int| 0 <= k < i ==> call_ensures(*norm, (self.amps@[k],), #[trigger] ps@[k]),
        {
            let p = norm(self.amps[i]);
            ps.push(p);
        }
        ps
    }

    /// The probability that qubit `q` measures 1: starting from `zero`, the
    /// norms of the amplitudes whose index has bit `q` set are added up in
    /// index order; `norm` and `plus` compute norms and sums.
    pub fn qubit_prob_one<P: Copy, F: Fn(A) -> P, G: Fn(P, P) -> P>(
        &self,
        q: usize,
        zero: P,
        norm: &F,
        plus: &G,
    ) -> (p: P)
        requires
            q < usize::BITS,
            forall|a: A| call_requires(*norm, (a,)),
            forall|x: P, y: P| call_requires(*plus, (x, y)),
        ensures
            sums(*norm, *plus, zero, with_bit(self.amps@, q), p),
    {
        let bit = 1usize << q;
        let mut total = zero;
        let n = self.amps.len();
        for i in 0..n
            invariant
                n == self.amps.len(),
                bit == 1usize << q,
                forall|a: A| call_requires(*norm, (a,)),
                forall|x: P, y: P| call_requires(*plus, (x, y)),
                sums(*norm, *plus, zero, with_bit(self.amps@.take(i as int), q), total),
        {
            let ghost pre = self.amps@.take(i as int + 1);
            proof {
                assert(pre.drop_last() =~= self.amps@.take(i as int));
                assert(pre.last() == self.amps@[i as int]);
            }
            if i & bit != 0 {
                let v = norm(self.amps[i]);
                let ghost sub = total;
                total = plus(total, v);
                proof {
                    lemma_sums_step(
                        *norm,
                        *plus,
                        zero,
                        with_bit(self.amps@.take(i as int), q),
                        sub,
                        self.amps@[i as int],
                        v,
                        total,
                    );
                }
            }
        }
        assert(self.amps@.take(n as int) =~= self.amps@);
        total
    }

    /// Applies the operation; `gate` computes what a single-qubit gate makes
    /// of each pair of amplitudes it acts on.
    pub fn apply<F: Fn(Gate, A, A) -> (A, A)>(&mut self, op: Op, gate: &F)
        requires
            fits(op, old(self).amps.len() as nat),
            forall|g: Gate, x: A, y: A| call_requires(*gate, (g, x, y)),
        ensures
            final(self).qubits == old(self).qubits,
            applied(*gate, op, old(self).amps@, final(self).amps@),
    {
        match op {
            Op::H(q) => apply_1q(&mut self.amps, q, Gate::H, gate),
            Op::X(q) => apply_1q(&mut self.amps, q, Gate::X, gate),
            Op::Y(q) => apply_1q(&mut self.amps, q, Gate::Y, gate),
            Op::Z(q) => apply_1q(&mut self.amps, q, Gate::Z, gate),
            Op::S(q) => apply_1q(&mut self.amps, q, Gate::S, gate),
            Op::T(q) => apply_1q(&mut self.amps, q, Gate::T, gate),
            Op::Cnot { control, target } => apply_cnot(&mut self.amps, control, target),
        }
    }
}

} // verus!
