use crate::errors::CircuitError;
use crate::matrix::{
    hadamard_matrix, not_matrix, swap_fits, swap_matrix, y_matrix, z_matrix, ComplexBits, MatrixData,
    MatrixView,
};
use crate::pipeline::{
    frontier_from, frontier_of, lemma_frontier_skips, lemma_ops_skip, lemma_reaches_trans, ops_from,
    ops_of,
};
use crate::qubits::{
    appended, applied_node, controlled_name, controlled_nodes, joined_indices,
    lemma_appended_twice, lemma_joined_pair, op_of, parents_of, reaches, split_nodes, OpBuilder,
    OpView, ParentView, QubitOp, Register, RegisterView,
};
use crate::state_ops::matrix_fits;
use vstd::prelude::*;

verus! {

/// Applies the matrix `data`, under the name `name`, to register `rs` under
/// the condition that every wire of register `cr` is set. Returns the control
/// register and the target register as they stand afterwards.
pub fn condition(b: &mut OpBuilder, cr: usize, rs: usize, name: &str, data: MatrixData) -> (out: (
    usize,
    usize,
))
    requires
        old(b).wf(),
        cr < old(b)@.len(),
        rs < old(b)@.len(),
    ensures
        final(b).wf(),
        final(b).wire_count() == old(b).wire_count(),
        appended(old(b)@, final(b)@, controlled_nodes(old(b)@, cr, rs, name@, data@)),
        out.0 == old(b)@.len() + 1,
        out.1 == old(b)@.len() + 2,
{
    let mut c = b.with_condition(cr);
    let rs = c.mat(b, name, rs, data);
    let r = c.release_register();
    (r, rs)
}

/// A controlled X, with `cr` as control and `r` as target.
pub fn cx(b: &mut OpBuilder, cr: usize, r: usize) -> (out: (usize, usize))
    requires
        old(b).wf(),
        cr < old(b)@.len(),
        r < old(b)@.len(),
    ensures
        final(b).wf(),
        final(b).wire_count() == old(b).wire_count(),
        appended(old(b)@, final(b)@, controlled_nodes(old(b)@, cr, r, "x"@, not_matrix())),
        out.0 == old(b)@.len() + 1,
        out.1 == old(b)@.len() + 2,
{
    condition(b, cr, r, "x", MatrixData::not())
}

/// A controlled Y, with `cr` as control and `r` as target.
pub fn cy(b: &mut OpBuilder, cr: usize, r: usize) -> (out: (usize, usize))
    requires
        old(b).wf(),
        cr < old(b)@.len(),
        r < old(b)@.len(),
    ensures
        final(b).wf(),
        final(b).wire_count() == old(b).wire_count(),
        appended(old(b)@, final(b)@, controlled_nodes(old(b)@, cr, r, "y"@, y_matrix())),
        out.0 == old(b)@.len() + 1,
        out.1 == old(b)@.len() + 2,
{
    condition(b, cr, r, "y", MatrixData::y())
}

/// A controlled Z, with `cr` as control and `r` as target.
pub fn cz(b: &mut OpBuilder, cr: usize, r: usize) -> (out: (usize, usize))
    requires
        old(b).wf(),
        cr < old(b)@.len(),
        r < old(b)@.len(),
    ensures
        final(b).wf(),
        final(b).wire_count() == old(b).wire_count(),
        appended(old(b)@, final(b)@, controlled_nodes(old(b)@, cr, r, "z"@, z_matrix())),
        out.0 == old(b)@.len() + 1,
        out.1 == old(b)@.len() + 2,
{
    condition(b, cr, r, "z", MatrixData::z())
}

/// A controlled not, with `cr` as control and `r` as target.
pub fn cnot(b: &mut OpBuilder, cr: usize, r: usize) -> (out: (usize, usize))
    requires
        old(b).wf(),
        cr < old(b)@.len(),
        r < old(b)@.len(),
    ensures
        final(b).wf(),
        final(b).wire_count() == old(b).wire_count(),
        appended(old(b)@, final(b)@, controlled_nodes(old(b)@, cr, r, "not"@, not_matrix())),
        out.0 == old(b)@.len() + 1,
        out.1 == old(b)@.len() + 2,
{
    condition(b, cr, r, "not", MatrixData::not())
}

/// A matrix of `entries` entries can be applied to a register of the listed
/// wires: it is square over them, or it has two rows and two columns and is
/// applied to each wire.
pub open spec fn matrix_applies(wires: Seq<u64>, entries: nat) -> bool {
    (entries == 4 && wires.len() >= 1) || matrix_fits(wires, entries)
}

/// Whether a matrix of `entries` entries can be applied to a register of
/// `wires` wires.
fn check_matrix_size(wires: &Vec<u64>, entries: usize) -> (ok: bool)
    ensures
        ok == matrix_applies(wires@, entries as nat),
{
    let k = wires.len();
    if entries == 4 && k >= 1 {
        return true;
    }
    if k >= 32 {
        return false;
    }
    let dim: u64 = 1u64 << (k as u64);
    proof {
        let ku = k as u64;
        assert((1u64 << ku) * (1u64 << ku) <= 0x4000_0000_0000_0000u64) by (bit_vector)
            requires
                ku < 32,
        ;
    }
    entries as u64 == dim * dim
}

/// Applies the matrix `data` to register `r` under the control of register
/// `cr`, where the matrix can be applied to `r`.
fn controlled_matrix(b: &mut OpBuilder, name: &str, cr: usize, r: usize, data: MatrixData) -> (out:
    Result<(usize, usize), CircuitError>)
    requires
        old(b).wf(),
        cr < old(b)@.len(),
        r < old(b)@.len(),
    ensures
        final(b).wf(),
        final(b).wire_count() == old(b).wire_count(),
        match out {
            Ok(pair) => {
                &&& matrix_applies(old(b)@[r as int].indices@, data@.len())
                &&& appended(old(b)@, final(b)@, controlled_nodes(old(b)@, cr, r, name@, data@))
                &&& pair.0 == old(b)@.len() + 1
                &&& pair.1 == old(b)@.len() + 2
            },
            Err(e) => {
                &&& !matrix_applies(old(b)@[r as int].indices@, data@.len())
                &&& e == CircuitError::MatrixSize
                &&& final(b)@ == old(b)@
            },
        },
{
    if check_matrix_size(&b.get(r).indices, data.len()) {
        Ok(condition(b, cr, r, name, data))
    } else {
        Err(CircuitError::MatrixSize)
    }
}

/// Applies the complex matrix `mat`, under the name `name`, to register `r`
/// under the control of register `cr`. A matrix of two rows and two columns
/// is applied to each wire of `r`.
pub fn cmat(b: &mut OpBuilder, name: &str, cr: usize, r: usize, mat: Vec<ComplexBits>) -> (out:
    Result<(usize, usize), CircuitError>)
    requires
        old(b).wf(),
        cr < old(b)@.len(),
        r < old(b)@.len(),
    ensures
        final(b).wf(),
        final(b).wire_count() == old(b).wire_count(),
        match out {
            Ok(pair) => {
                &&& matrix_applies(old(b)@[r as int].indices@, mat@.len())
                &&& appended(
                    old(b)@,
                    final(b)@,
                    controlled_nodes(old(b)@, cr, r, name@, MatrixView::Complex(mat@)),
                )
                &&& pair.0 == old(b)@.len() + 1
                &&& pair.1 == old(b)@.len() + 2
            },
            Err(e) => {
                &&& !matrix_applies(old(b)@[r as int].indices@, mat@.len())
                &&& e == CircuitError::MatrixSize
                &&& final(b)@ == old(b)@
            },
        },
{
    controlled_matrix(b, name, cr, r, MatrixData::Complex(mat))
}

/// Applies the real matrix `mat`, under the name `name`, to register `r`
/// under the control of register `cr`. A matrix of two rows and two columns
/// is applied to each wire of `r`.
pub fn crealmat(b: &mut OpBuilder, name: &str, cr: usize, r: usize, mat: Vec<u64>) -> (out: Result<
    (usize, usize),
    CircuitError,
>)
    requires
        old(b).wf(),
        cr < old(b)@.len(),
        r < old(b)@.len(),
    ensures
        final(b).wf(),
        final(b).wire_count() == old(b).wire_count(),
        match out {
            Ok(pair) => {
                &&& matrix_applies(old(b)@[r as int].indices@, mat@.len())
                &&& appended(
                    old(b)@,
                    final(b)@,
                    controlled_nodes(old(b)@, cr, r, name@, MatrixView::Real(mat@)),
                )
                &&& pair.0 == old(b)@.len() + 1
                &&& pair.1 == old(b)@.len() + 2
            },
            Err(e) => {
                &&& !matrix_applies(old(b)@[r as int].indices@, mat@.len())
                &&& e == CircuitError::MatrixSize
                &&& final(b)@ == old(b)@
            },
        },
{
    controlled_matrix(b, name, cr, r, MatrixData::Real(mat))
}

/// The six registers that exchanging the registers `ra` and `rb` under the
/// control of register `cr` adds to the table `g`: the two merged; the
/// register that carries the controlled exchange, with an alias for the
/// control and one for the merged register; and an alias of the latter for
/// each half of its wires.
pub open spec fn cswap_nodes(g: Seq<Register>, cr: usize, ra: usize, rb: usize) -> Seq<RegisterView> {
    let len = g.len() as usize;
    let c = g[cr as int].indices@;
    let a = g[ra as int].indices@;
    let b = g[rb as int].indices@;
    seq![
        RegisterView { id: len, indices: a + b, parent: Some(ParentView::Owned(seq![ra, rb], None)) },
        RegisterView {
            id: (len + 1) as usize,
            indices: c + (a + b),
            parent: Some(
                ParentView::Owned(
                    seq![cr, len],
                    Some(
                        OpView {
                            name: controlled_name("swap"@),
                            controls: c,
                            indices: a + b,
                            data: swap_matrix(a.len() as u64),
                        },
                    ),
                ),
            ),
        },
        RegisterView {
            id: (len + 2) as usize,
            indices: c,
            parent: Some(ParentView::Shared((len + 1) as usize)),
        },
        RegisterView {
            id: (len + 3) as usize,
            indices: a + b,
            parent: Some(ParentView::Shared((len + 1) as usize)),
        },
        RegisterView {
            id: (len + 4) as usize,
            indices: a,
            parent: Some(ParentView::Shared((len + 3) as usize)),
        },
        RegisterView {
            id: (len + 5) as usize,
            indices: b,
            parent: Some(ParentView::Shared((len + 3) as usize)),
        },
    ]
}

/// Exchanges the registers `ra` and `rb`, which must have the same number of
/// wires, under the control of register `cr`. Returns the control register
/// and the two registers as they stand afterwards.
pub fn cswap(b: &mut OpBuilder, cr: usize, ra: usize, rb: usize) -> (out: Result<
    (usize, usize, usize),
    CircuitError,
>)
    requires
        old(b).wf(),
        cr < old(b)@.len(),
        ra < old(b)@.len(),
        rb < old(b)@.len(),
    ensures
        final(b).wf(),
        final(b).wire_count() == old(b).wire_count(),
        match out {
            Ok(triple) => {
                &&& old(b)@[ra as int].indices@.len() == old(b)@[rb as int].indices@.len()
                &&& swap_fits(old(b)@[ra as int].indices@.len())
                &&& appended(old(b)@, final(b)@, cswap_nodes(old(b)@, cr, ra, rb))
                &&& triple.0 == old(b)@.len() + 2
                &&& triple.1 == old(b)@.len() + 4
                &&& triple.2 == old(b)@.len() + 5
            },
            Err(e) => {
                &&& final(b)@ == old(b)@
                &&& if old(b)@[ra as int].indices@.len() != old(b)@[rb as int].indices@.len() {
                    e == CircuitError::RegisterSizes
                } else {
                    e == CircuitError::TooManyWires && !swap_fits(old(b)@[ra as int].indices@.len())
                }
            },
        },
{
    let ghost g0 = b@;
    let k = b.get(ra).indices.len();
    if b.get(rb).indices.len() != k {
        return Err(CircuitError::RegisterSizes);
    }
    let data = match MatrixData::swap(k) {
        Some(data) => data,
        None => {
            return Err(CircuitError::TooManyWires);
        },
    };
    let mut both: Vec<usize> = Vec::new();
    both.push(ra);
    both.push(rb);
    proof {
        lemma_joined_pair(g0, ra, rb);
        assert(both@ == seq![ra, rb]);
    }
    let merged = b.merge(both);
    let ghost g1 = b@;
    proof {
        let l0 = g0.len() as int;
        assert(g1[l0 + 0]@.indices == g0[ra as int].indices@ + g0[rb as int].indices@);
        assert(g1[cr as int] == g0[cr as int]) by {
            assert(g1.take(l0)[cr as int] == g1[cr as int]);
        }
    }
    let (control, exchanged) = condition(b, cr, merged, "swap", data);
    let ghost g2 = b@;
    proof {
        let l1 = g1.len() as int;
        assert(g2[l1 + 2]@ == controlled_nodes(g1, cr, merged, "swap"@, swap_matrix(k as u64))[2]);
    }
    let halves = b.split_at(exchanged, k);
    proof {
        let a = g0[ra as int].indices@;
        let bb = g0[rb as int].indices@;
        let l0 = g0.len() as int;
        let n1 = seq![g1[l0]@];
        let n2 = controlled_nodes(g1, cr, merged, "swap"@, swap_matrix(k as u64));
        let n3 = split_nodes(g2, exchanged, k as int);
        lemma_appended_twice(g0, g1, g2, n1, n2);
        lemma_appended_twice(g0, g2, b@, n1 + n2, n3);
        assert((a + bb).take(k as int) == a);
        assert((a + bb).skip(k as int) == bb);
        assert(n1 + n2 + n3 == cswap_nodes(g0, cr, ra, rb));
    }
    Ok((control, halves.0, halves.1))
}

/// The wires `from`, `from + 1`, ... : `count` of them.
pub open spec fn wire_range(from: int, count: int) -> Seq<u64> {
    Seq::new(count as nat, |i: int| (from + i) as u64)
}

/// The identifiers `from`, `from + 1`, ... : `count` of them.
pub open spec fn id_range(from: int, count: int) -> Seq<usize> {
    Seq::new(count as nat, |i: int| (from + i) as usize)
}

/// The registers that an entangled pair of `n` wires each adds to a table of
/// `k` registers and `w` wires:
/// two fresh registers, of one wire and of `2n - 1` wires; the first under
/// a Hadamard matrix; the register that flips the second under the control of
/// the first, with an alias for each of the two; an alias of the second for
/// each of its wires; and the two halves, each of `n` wires.
pub open spec fn epr_nodes(k: int, w: int, n: int) -> Seq<RegisterView> {
    let m = 2 * n;
    Seq::new(
        (m + 7) as nat,
        |i: int|
            if i == 0 {
                RegisterView { id: k as usize, indices: wire_range(w, 1), parent: None }
            } else if i == 1 {
                RegisterView { id: (k + 1) as usize, indices: wire_range(w + 1, m - 1), parent: None }
            } else if i == 2 {
                RegisterView {
                    id: (k + 2) as usize,
                    indices: wire_range(w, 1),
                    parent: Some(
                        ParentView::Owned(
                            seq![k as usize],
                            Some(
                                OpView {
                                    name: "hadamard"@,
                                    controls: Seq::empty(),
                                    indices: wire_range(w, 1),
                                    data: hadamard_matrix(),
                                },
                            ),
                        ),
                    ),
                }
            } else if i == 3 {
                RegisterView {
                    id: (k + 3) as usize,
                    indices: wire_range(w, m),
                    parent: Some(
                        ParentView::Owned(
                            seq![(k + 2) as usize, (k + 1) as usize],
                            Some(
                                OpView {
                                    name: controlled_name("not"@),
                                    controls: wire_range(w, 1),
                                    indices: wire_range(w + 1, m - 1),
                                    data: not_matrix(),
                                },
                            ),
                        ),
                    ),
                }
            } else if i == 4 {
                RegisterView {
                    id: (k + 4) as usize,
                    indices: wire_range(w, 1),
                    parent: Some(ParentView::Shared((k + 3) as usize)),
                }
            } else if i == 5 {
                RegisterView {
                    id: (k + 5) as usize,
                    indices: wire_range(w + 1, m - 1),
                    parent: Some(ParentView::Shared((k + 3) as usize)),
                }
            } else if i < m + 5 {
                RegisterView {
                    id: (k + i) as usize,
                    indices: wire_range(w + i - 5, 1),
                    parent: Some(ParentView::Shared((k + 5) as usize)),
                }
            } else if i == m + 5 {
                RegisterView {
                    id: (k + m + 5) as usize,
                    indices: wire_range(w, n),
                    parent: Some(
                        ParentView::Owned(seq![(k + 4) as usize] + id_range(k + 6, n - 1), None),
                    ),
                }
            } else {
                RegisterView {
                    id: (k + m + 6) as usize,
                    indices: wire_range(w + n, n),
                    parent: Some(ParentView::Owned(id_range(k + 5 + n, n), None)),
                }
            },
    )
}

/// The wires of a list of registers of one wire each.
proof fn lemma_joined_singles(g: Seq<Register>, rs: Seq<usize>, wires: Seq<u64>)
    requires
        rs.len() == wires.len(),
        forall|i: int| 0 <= i < rs.len() ==> g[(#[trigger] rs[i]) as int].indices@ == seq![wires[i]],
    ensures
        joined_indices(g, rs) == wires,
    decreases rs.len(),
{
    if rs.len() > 0 {
        assert forall|i: int| 0 <= i < rs.drop_last().len() implies g[(
        #[trigger] rs.drop_last()[i]) as int].indices@ == seq![wires.drop_last()[i]] by {
            assert(rs.drop_last()[i] == rs[i]);
        }
        lemma_joined_singles(g, rs.drop_last(), wires.drop_last());
        assert(g[rs.last() as int].indices@ == seq![wires.last()]) by {
            assert(rs[rs.len() - 1] == rs.last());
        }
        assert(wires.drop_last() + seq![wires.last()] == wires);
    } else {
        assert(wires == Seq::<u64>::empty());
    }
}

/// A table that has grown by the first `a` registers of `want` and then by
/// the registers `a..b` of `want` has grown by the first `b`.
proof fn lemma_appended_more(
    g0: Seq<Register>,
    ga: Seq<Register>,
    gb: Seq<Register>,
    want: Seq<RegisterView>,
    a: int,
    b: int,
)
    requires
        0 <= a <= b <= want.len(),
        appended(g0, ga, want.take(a)),
        appended(ga, gb, want.subrange(a, b)),
    ensures
        appended(g0, gb, want.take(b)),
        forall|i: int| 0 <= i < ga.len() ==> gb[i] == ga[i],
{
    lemma_appended_twice(g0, ga, gb, want.take(a), want.subrange(a, b));
    assert(want.take(a) + want.subrange(a, b) == want.take(b));
}

/// The two halves of the list of registers that an entangled pair merges.
proof fn lemma_split_halves(k: int, n: int, all: Seq<usize>)
    requires
        n >= 1,
        0 <= k,
        k + 2 * n + 4 <= usize::MAX,
        all == seq![(k + 4) as usize] + Seq::new((2 * n - 1) as nat, |j: int| (k + 6 + j) as usize),
    ensures
        all.len() == 2 * n,
        all.subrange(0, n) == seq![(k + 4) as usize] + id_range(k + 6, n - 1),
        all.subrange(n, 2 * n) == id_range(k + 5 + n, n),
        forall|i: int| 0 <= i < 2 * n ==> (#[trigger] all[i]) < k + 2 * n + 5,
{
    assert(all.subrange(0, n) =~= seq![(k + 4) as usize] + id_range(k + 6, n - 1));
    assert(all.subrange(n, 2 * n) =~= id_range(k + 5 + n, n));
}

/// The table after the two fresh registers of an entangled pair.
proof fn lemma_epr_fresh(
    g0: Seq<Register>,
    g1: Seq<Register>,
    g2: Seq<Register>,
    k: int,
    w: int,
    n: int,
)
    requires
        n >= 1,
        k == g0.len(),
        0 <= w,
        w + 2 * n <= u64::MAX,
        g2.len() <= usize::MAX,
        appended(
            g0,
            g1,
            seq![
                RegisterView {
                    id: k as usize,
                    indices: Seq::new(1, |i: int| (w + i) as u64),
                    parent: None,
                },
            ],
        ),
        appended(
            g1,
            g2,
            seq![
                RegisterView {
                    id: (k + 1) as usize,
                    indices: Seq::new((2 * n - 1) as nat, |i: int| (w + 1 + i) as u64),
                    parent: None,
                },
            ],
        ),
    ensures
        appended(g0, g2, epr_nodes(k, w, n).take(2)),
{
    let want = epr_nodes(k, w, n);
    assert(g0.take(k) == g0);
    assert(appended(g0, g0, want.take(0)));
    assert(appended(g0, g1, want.subrange(0, 1))) by {
        assert(g1[k + 0]@ == want[0]);
    }
    lemma_appended_more(g0, g0, g1, want, 0, 1);
    assert(appended(g1, g2, want.subrange(1, 2))) by {
        assert(g2[k + 1 + 0]@.indices == wire_range(w + 1, 2 * n - 1));
        assert(g2[k + 1 + 0]@ == want[1]);
    }
    lemma_appended_more(g0, g1, g2, want, 1, 2);
}

/// The table after the Hadamard matrix and the controlled flip.
proof fn lemma_epr_gates(
    g0: Seq<Register>,
    g2: Seq<Register>,
    g3: Seq<Register>,
    g4: Seq<Register>,
    k: int,
    w: int,
    n: int,
)
    requires
        n >= 1,
        k == g0.len(),
        0 <= w,
        w + 2 * n <= u64::MAX,
        g4.len() <= usize::MAX,
        appended(g0, g2, epr_nodes(k, w, n).take(2)),
        appended(g2, g3, seq![applied_node(g2, k as usize, "hadamard"@, hadamard_matrix())]),
        appended(g3, g4, controlled_nodes(g3, (k + 2) as usize, (k + 1) as usize, "not"@, not_matrix())),
    ensures
        appended(g0, g4, epr_nodes(k, w, n).take(6)),
        g4[k + 5].indices@ == wire_range(w + 1, 2 * n - 1),
{
    let want = epr_nodes(k, w, n);
    let m = 2 * n;
    assert(appended(g2, g3, want.subrange(2, 3))) by {
        assert(g2[k + 0]@ == want.take(2)[0]);
        assert(g3[k + 2 + 0]@ == applied_node(g2, k as usize, "hadamard"@, hadamard_matrix()));
        assert(g3[k + 2 + 0]@ == want[2]);
    }
    lemma_appended_more(g0, g2, g3, want, 2, 3);
    assert(appended(g3, g4, want.subrange(3, 6))) by {
        let added = controlled_nodes(g3, (k + 2) as usize, (k + 1) as usize, "not"@, not_matrix());
        assert(g3[k + 1]@ == want.take(3)[1]);
        assert(g3[k + 2]@ == want.take(3)[2]);
        assert(wire_range(w, 1) + wire_range(w + 1, m - 1) == wire_range(w, m));
        assert(added[0] == want[3]);
        assert(added[1] == want[4]);
        assert(added[2] == want[5]);
        assert(added == want.subrange(3, 6));
    }
    lemma_appended_more(g0, g3, g4, want, 3, 6);
    assert(g4[k + 5]@ == want.take(6)[5]);
}

/// The table after the second register is split into its wires.
proof fn lemma_epr_split(g0: Seq<Register>, g4: Seq<Register>, g5: Seq<Register>, k: int, w: int, n: int)
    requires
        n >= 1,
        k == g0.len(),
        0 <= w,
        w + 2 * n <= u64::MAX,
        g5.len() <= usize::MAX,
        appended(g0, g4, epr_nodes(k, w, n).take(6)),
        g4[k + 5].indices@ == wire_range(w + 1, 2 * n - 1),
        appended(
            g4,
            g5,
            Seq::new(
                g4[k + 5].indices@.len(),
                |j: int|
                    RegisterView {
                        id: (g4.len() + j) as usize,
                        indices: seq![g4[k + 5].indices@[j]],
                        parent: Some(ParentView::Shared((k + 5) as usize)),
                    },
            ),
        ),
    ensures
        appended(g0, g5, epr_nodes(k, w, n).take(2 * n + 5)),
{
    let want = epr_nodes(k, w, n);
    let m = 2 * n;
    let added = Seq::new(
        g4[k + 5].indices@.len(),
        |j: int|
            RegisterView {
                id: (g4.len() + j) as usize,
                indices: seq![g4[k + 5].indices@[j]],
                parent: Some(ParentView::Shared((k + 5) as usize)),
            },
    );
    assert forall|j: int| 0 <= j < added.len() implies added[j] == want.subrange(6, m + 5)[j] by {
        assert(seq![g4[k + 5].indices@[j]] == wire_range(w + (6 + j) - 5, 1));
        assert(added[j] == want[6 + j]);
    }
    assert(added == want.subrange(6, m + 5));
    lemma_appended_more(g0, g4, g5, want, 6, m + 5);
}

/// The table after the two halves are merged.
proof fn lemma_epr_halves(
    g0: Seq<Register>,
    g5: Seq<Register>,
    g6: Seq<Register>,
    g7: Seq<Register>,
    k: int,
    w: int,
    n: int,
)
    requires
        n >= 1,
        k == g0.len(),
        0 <= w,
        w + 2 * n <= u64::MAX,
        g7.len() <= usize::MAX,
        appended(g0, g5, epr_nodes(k, w, n).take(2 * n + 5)),
        appended(
            g5,
            g6,
            seq![
                RegisterView {
                    id: (k + 2 * n + 5) as usize,
                    indices: joined_indices(g5, seq![(k + 4) as usize] + id_range(k + 6, n - 1)),
                    parent: Some(
                        ParentView::Owned(seq![(k + 4) as usize] + id_range(k + 6, n - 1), None),
                    ),
                },
            ],
        ),
        appended(
            g6,
            g7,
            seq![
                RegisterView {
                    id: (k + 2 * n + 6) as usize,
                    indices: joined_indices(g6, id_range(k + 5 + n, n)),
                    parent: Some(ParentView::Owned(id_range(k + 5 + n, n), None)),
                },
            ],
        ),
    ensures
        appended(g0, g7, epr_nodes(k, w, n)),
{
    let want = epr_nodes(k, w, n);
    let m = 2 * n;
    let front = seq![(k + 4) as usize] + id_range(k + 6, n - 1);
    let back = id_range(k + 5 + n, n);
    assert(joined_indices(g5, front) == wire_range(w, n)) by {
        assert forall|i: int| 0 <= i < front.len() implies g5[(#[trigger] front[i]) as int].indices@
            == seq![wire_range(w, n)[i]] by {
            if i == 0 {
                assert(g5[k + 4]@ == want.take(m + 5)[4]);
            } else {
                assert(g5[k + (5 + i)]@ == want.take(m + 5)[5 + i]);
                assert(wire_range(w + (5 + i) - 5, 1) == seq![wire_range(w, n)[i]]);
            }
        }
        lemma_joined_singles(g5, front, wire_range(w, n));
    }
    assert(appended(g5, g6, want.subrange(m + 5, m + 6))) by {
        assert(g6[k + m + 5 + 0]@ == want[m + 5]);
    }
    lemma_appended_more(g0, g5, g6, want, m + 5, m + 6);
    assert(joined_indices(g6, back) == wire_range(w + n, n)) by {
        assert forall|i: int| 0 <= i < back.len() implies g6[(#[trigger] back[i]) as int].indices@
            == seq![wire_range(w + n, n)[i]] by {
            assert(g6[k + (5 + n + i)]@ == want.take(m + 6)[5 + n + i]);
            assert(wire_range(w + (5 + n + i) - 5, 1) == seq![wire_range(w + n, n)[i]]);
        }
        lemma_joined_singles(g6, back, wire_range(w + n, n));
    }
    assert(appended(g6, g7, want.subrange(m + 6, m + 7))) by {
        assert(g7[k + m + 6 + 0]@ == want[m + 6]);
    }
    lemma_appended_more(g0, g6, g7, want, m + 6, m + 7);
    assert(want.take(m + 7) == want);
}

/// Where no register from `k` up to `t` derives from a register before `k`,
/// `t` derives from none before `k`.
proof fn lemma_reaches_from(g: Seq<Register>, k: int, t: int, v: int)
    requires
        0 <= k <= t < g.len(),
        forall|i: int, j: int|
            k <= i <= t && 0 <= j < parents_of(g[i]).len() ==> k <= #[trigger] parents_of(g[i])[j],
        reaches(g, t, v),
    ensures
        k <= v,
    decreases t,
{
    if v != t {
        let j = choose|j: int|
            0 <= j < parents_of(g[t]).len() && 0 <= (#[trigger] parents_of(g[t])[j]) < t && reaches(
                g,
                parents_of(g[t])[j] as int,
                v,
            );
        lemma_reaches_from(g, k, parents_of(g[t])[j] as int, v);
    }
}

/// Each half of an entangled pair is made of the two fresh registers, by two
/// operations: the Hadamard matrix on the first wire, then the flip of the
/// other wires under its control.
pub proof fn lemma_epr_pair_linearized(g0: Seq<Register>, g: Seq<Register>, w: int, n: int, half: int)
    requires
        n >= 1,
        g.len() <= usize::MAX,
        appended(g0, g, epr_nodes(g0.len() as int, w, n)),
        half == g0.len() + 2 * n + 5 || half == g0.len() + 2 * n + 6,
    ensures
        frontier_of(g, half) == seq![g[g0.len() as int + 1], g[g0.len() as int]],
        ops_of(g, half).len() == 2,
        ops_of(g, half)[0]@ == (OpView {
            name: "hadamard"@,
            controls: Seq::empty(),
            indices: wire_range(w, 1),
            data: hadamard_matrix(),
        }),
        ops_of(g, half)[1]@ == (OpView {
            name: controlled_name("not"@),
            controls: wire_range(w, 1),
            indices: wire_range(w + 1, 2 * n - 1),
            data: not_matrix(),
        }),
{
    let k = g0.len() as int;
    let m = 2 * n;
    let want = epr_nodes(k, w, n);
    assert forall|i: int| 0 <= i < m + 7 implies (#[trigger] g[k + i])@ == want[i] by {}
    // the links
    assert(g[k + 0].parent is None && g[k + 1].parent is None);
    assert(parents_of(g[k + 2]) == seq![k as usize]);
    assert(parents_of(g[k + 3]) == seq![(k + 2) as usize, (k + 1) as usize]);
    assert(parents_of(g[k + 4]) == seq![(k + 3) as usize]);
    assert(parents_of(g[k + 5]) == seq![(k + 3) as usize]);
    assert(parents_of(g[k + (n + 5)]) == seq![(k + 5) as usize]);
    assert(parents_of(g[k + (m + 5)]) == seq![(k + 4) as usize] + id_range(k + 6, n - 1));
    assert(parents_of(g[k + (m + 6)]) == id_range(k + 5 + n, n));
    assert forall|i: int, j: int|
        k <= i <= half && 0 <= j < parents_of(g[i]).len() implies k <= #[trigger] parents_of(
        g[i],
    )[j] by {
        let r = g[k + (i - k)];
        assert(r@ == want[i - k]);
    }
    // what each half derives from
    assert(reaches(g, k + 2, k + 2) && reaches(g, k + 1, k + 1) && reaches(g, k, k));
    assert(reaches(g, k + 2, k)) by {
        assert(parents_of(g[k + 2])[0] == k);
    }
    assert(reaches(g, k + 3, k + 2)) by {
        assert(parents_of(g[k + 3])[0] == k + 2);
    }
    assert(reaches(g, k + 3, k + 1)) by {
        assert(parents_of(g[k + 3])[1] == k + 1);
    }
    lemma_reaches_trans(g, k + 3, k + 2, k);
    assert(reaches(g, k + 3, k + 3));
    assert(reaches(g, k + 4, k + 3)) by {
        assert(parents_of(g[k + 4])[0] == k + 3);
    }
    assert(reaches(g, k + 5, k + 3)) by {
        assert(parents_of(g[k + 5])[0] == k + 3);
    }
    assert(reaches(g, half, k + 3)) by {
        if half == k + m + 5 {
            assert(reaches(g, k + 4, k + 4));
            assert(parents_of(g[k + (m + 5)])[0] == k + 4);
            assert(reaches(g, half, k + 4));
            lemma_reaches_trans(g, half, k + 4, k + 3);
        } else {
            assert(reaches(g, k + 5, k + 5));
            assert(reaches(g, k + (n + 5), k + 5)) by {
                assert(parents_of(g[k + (n + 5)])[0] == k + 5);
            }
            assert(reaches(g, k + (n + 5), k + (n + 5)));
            assert(parents_of(g[k + (m + 6)])[0] == k + 5 + n);
            assert(reaches(g, half, k + (n + 5)));
            lemma_reaches_trans(g, half, k + (n + 5), k + 5);
            lemma_reaches_trans(g, half, k + 5, k + 3);
        }
    }
    lemma_reaches_trans(g, half, k + 3, k + 2);
    lemma_reaches_trans(g, half, k + 3, k + 1);
    lemma_reaches_trans(g, half, k + 3, k);
    assert forall|v: int| 0 <= v < k implies !reaches(g, half, v) by {
        if reaches(g, half, v) {
            lemma_reaches_from(g, k, half, v);
        }
    }
    // the frontier
    lemma_frontier_skips(g, half, 0, k);
    assert forall|v: int| k + 2 <= v < half + 1 implies g[v].parent is Some by {
        assert(g[k + (v - k)]@ == want[v - k]);
    }
    lemma_frontier_skips(g, half, k + 2, half + 1);
    assert(frontier_from(g, half, half + 1) == Seq::<Register>::empty());
    assert(frontier_from(g, half, k + 1) == seq![g[k + 1]]);
    assert(frontier_from(g, half, k) == seq![g[k + 1], g[k]]);
    // the operations
    assert(op_of(g[k + 0]) is None && op_of(g[k + 1]) is None);
    assert(op_of(g[k + 2]) is Some && op_of(g[k + 3]) is Some);
    lemma_ops_skip(g, half, 0, k + 2);
    assert forall|v: int| k + 4 <= v < half + 1 implies op_of(g[v]) is None by {
        assert(g[k + (v - k)]@ == want[v - k]);
    }
    lemma_ops_skip(g, half, k + 4, half + 1);
    assert(ops_from(g, half, half + 1) == Seq::<QubitOp>::empty());
    assert(ops_from(g, half, k + 3) == seq![op_of(g[k + 3])->0]);
    assert(ops_from(g, half, k + 2) == seq![op_of(g[k + 2])->0, op_of(g[k + 3])->0]);
}

/// Makes a pair of registers of `n` wires each in the state in which the two
/// always agree: one wire under a Hadamard matrix flips, as control, the
/// other `2n - 1` wires; the first `n` wires form the first register and the
/// last `n` the second.
pub fn epr_pair(b: &mut OpBuilder, n: u64) -> (pair: (usize, usize))
    requires
        old(b).wf(),
        n >= 1,
        old(b).wire_count() + 2 * n <= u64::MAX,
    ensures
        final(b).wf(),
        final(b).wire_count() == old(b).wire_count() + 2 * n,
        appended(
            old(b)@,
            final(b)@,
            epr_nodes(old(b)@.len() as int, old(b).wire_count() as int, n as int),
        ),
        pair.0 == old(b)@.len() + 2 * n + 5,
        pair.1 == old(b)@.len() + 2 * n + 6,
{
    let ghost g0 = b@;
    let ghost k = b@.len() as int;
    let ghost w = b.wire_count() as int;
    let ghost nn = n as int;
    let m = 2 * n;

    let r = b.r(1);
    let ghost g1 = b@;
    let rs = b.r(m - 1);
    let ghost g2 = b@;
    proof {
        b.lemma_len_bounded();
        lemma_epr_fresh(g0, g1, g2, k, w, nn);
    }

    let r = b.hadamard(r);
    let ghost g3 = b@;
    let (r, rs) = condition(b, r, rs, "not", MatrixData::not());
    let ghost g4 = b@;
    proof {
        b.lemma_len_bounded();
        lemma_epr_gates(g0, g2, g3, g4, k, w, nn);
    }

    let mut all_rs: Vec<usize> = Vec::new();
    all_rs.push(r);
    let mut rest = b.split_all(rs);
    let ghost g5 = b@;
    proof {
        b.lemma_len_bounded();
        lemma_epr_split(g0, g4, g5, k, w, nn);
    }
    all_rs.append(&mut rest);
    proof {
        assert(all_rs@ == seq![(k + 4) as usize] + Seq::new(
            (2 * nn - 1) as nat,
            |j: int| (k + 6 + j) as usize,
        ));
        lemma_split_halves(k, nn, all_rs@);
    }
    let back_rs = all_rs.split_off(n as usize);

    let ra = b.merge(all_rs);
    let ghost g6 = b@;
    let rb = b.merge(back_rs);
    let ghost g7 = b@;
    proof {
        b.lemma_len_bounded();
        lemma_epr_halves(g0, g5, g6, g7, k, w, nn);
    }
    (ra, rb)
}

} // verus!
